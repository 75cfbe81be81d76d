//! Standard security handler decryption (ISO 32000-1 §7.6.3 / ISO 32000-2 §7.6.4).
//!
//! Supports the RC4 (V1–V4) and AES (AESV2 = AES-128, AESV3 = AES-256) crypt
//! filters with key revisions R2–R6, using an empty or a supplied user or owner
//! password. The file key is derived once from the `/Encrypt` dictionary;
//! strings and stream bodies are then decrypted per object (RC4/AESV2) or with
//! the file key directly (AESV3).
//!
//! RC4 is implemented here; MD5, SHA-2 and AES-CBC are called through the
//! trusted wrappers at the end of this file, whose results are named.

use vstd::prelude::*;

use crate::encode::extend_bytes;
use crate::object::{
    lemma_entries_insert_absent, lookup, str_eq, Dictionary, Object, Stream, Val,
};

use aes::cipher::block_padding::{NoPadding, Pkcs7};
use aes::cipher::{BlockDecryptMut, BlockEncryptMut, KeyIvInit};
use md5::{Digest, Md5};
use sha2::{Sha256, Sha384, Sha512};

verus! {

// ---------------------------------------------------------------- RC4

/// Swaps the entries at `a` and `b`.
pub open spec fn swap_at(s: Seq<u8>, a: int, b: int) -> Seq<u8> {
    s.update(a, s[b]).update(b, s[a])
}

/// The identity permutation of the 256 state bytes.
pub open spec fn rc4_identity() -> Seq<u8> {
    Seq::new(256, |i: int| i as u8)
}

/// The key-scheduling state `(S, j)` after its first `n` steps.
pub open spec fn ksa_upto(key: Seq<u8>, n: nat) -> (Seq<u8>, u8)
    decreases n,
{
    if n == 0 {
        (rc4_identity(), 0u8)
    } else {
        let (s, j) = ksa_upto(key, (n - 1) as nat);
        let i = n - 1;
        let j2 = ((j + s[i] + key[i % key.len() as int]) % 256) as u8;
        (swap_at(s, i, j2 as int), j2)
    }
}

/// The permutation produced by the RC4 key schedule.
pub open spec fn rc4_ksa_spec(key: Seq<u8>) -> Seq<u8> {
    ksa_upto(key, 256).0
}

/// One step of the RC4 output generator on `(S, i, j)`.
pub open spec fn prga_step(st: (Seq<u8>, u8, u8)) -> (Seq<u8>, u8, u8) {
    let (s, i, j) = st;
    let i2 = ((i + 1) % 256) as u8;
    let j2 = ((j + s[i2 as int]) % 256) as u8;
    (swap_at(s, i2 as int, j2 as int), i2, j2)
}

/// The generator state after `t` steps from permutation `s0`.
pub open spec fn prga_state(s0: Seq<u8>, t: nat) -> (Seq<u8>, u8, u8)
    decreases t,
{
    if t == 0 {
        (s0, 0u8, 0u8)
    } else {
        prga_step(prga_state(s0, (t - 1) as nat))
    }
}

/// The `t`-th keystream byte generated from permutation `s0`.
pub open spec fn keystream_byte(s0: Seq<u8>, t: nat) -> u8 {
    let (s, i, j) = prga_state(s0, t + 1);
    s[((s[i as int] + s[j as int]) % 256) as int]
}

/// RC4 of `data` under `key`: each byte XORed with the keystream byte at its
/// position. The keystream depends on the key alone.
pub open spec fn rc4_spec(key: Seq<u8>, data: Seq<u8>) -> Seq<u8> {
    Seq::new(data.len(), |t: int| data[t] ^ keystream_byte(rc4_ksa_spec(key), t as nat))
}

/// RC4 is its own inverse: encrypting twice under one key gives the input back.
pub proof fn lemma_rc4_involution(key: Seq<u8>, data: Seq<u8>)
    ensures
        rc4_spec(key, rc4_spec(key, data)) == data,
{
    let once = rc4_spec(key, data);
    let twice = rc4_spec(key, once);
    assert forall|t: int| 0 <= t < data.len() implies twice[t] == data[t] by {
        let k = keystream_byte(rc4_ksa_spec(key), t as nat);
        let x = data[t];
        assert((x ^ k) ^ k == x) by (bit_vector);
    }
    assert(twice =~= data);
}

/// RC4 stream cipher. The key must be non-empty (the schedule indexes it
/// modulo its length).
pub fn rc4(key: &[u8], data: &[u8]) -> (r: Vec<u8>)
    requires
        key@.len() > 0,
    ensures
        r@ == rc4_spec(key@, data@),
{
    let mut s: Vec<u8> = Vec::new();
    let mut i: usize = 0;
    while i < 256
        invariant
            i <= 256,
            s@ =~= rc4_identity().subrange(0, i as int),
        decreases 256 - i,
    {
        s.push(i as u8);
        i += 1;
    }
    assert(s@ =~= rc4_identity());
    rc4_ksa(&mut s, key);
    let r = rc4_prga(&mut s, data);
    assert(r@ =~= rc4_spec(key@, data@));
    r
}

/// Exchanges two state bytes.
fn swap_bytes(s: &mut Vec<u8>, a: usize, b: usize)
    requires
        a < old(s)@.len(),
        b < old(s)@.len(),
    ensures
        final(s)@ == swap_at(old(s)@, a as int, b as int),
{
    let x = s[a];
    let y = s[b];
    s.set(a, y);
    s.set(b, x);
}

/// The RC4 key schedule, permuting the identity state in place.
fn rc4_ksa(s: &mut Vec<u8>, key: &[u8])
    requires
        old(s)@ == rc4_identity(),
        key@.len() > 0,
    ensures
        final(s)@ == rc4_ksa_spec(key@),
        final(s)@.len() == 256,
{
    let mut j: u8 = 0;
    let klen = key.len();
    let mut i: usize = 0;
    while i < 256
        invariant
            i <= 256,
            klen == key@.len(),
            klen > 0,
            s@.len() == 256,
            (s@, j) == ksa_upto(key@, i as nat),
        decreases 256 - i,
    {
        let ghost prev = s@;
        j = j.wrapping_add(s[i]).wrapping_add(key[i % klen]);
        swap_bytes(s, i, j as usize);
        assert(s@.len() == 256);
        i += 1;
    }
}

/// The RC4 output generator: XORs `data` with the keystream of state `s`.
fn rc4_prga(s: &mut Vec<u8>, data: &[u8]) -> (r: Vec<u8>)
    requires
        old(s)@.len() == 256,
    ensures
        r@.len() == data@.len(),
        forall|t: int| 0 <= t < data@.len() ==> #[trigger] r@[t] == data@[t] ^ keystream_byte(old(s)@, t as nat),
{
    let ghost s0 = s@;
    let mut i: u8 = 0;
    let mut j: u8 = 0;
    let mut out: Vec<u8> = Vec::new();
    let n = data.len();
    let mut t: usize = 0;
    while t < n
        invariant
            n == data@.len(),
            t <= n,
            s@.len() == 256,
            (s@, i, j) == prga_state(s0, t as nat),
            out@.len() == t,
            forall|u: int| 0 <= u < t ==> #[trigger] out@[u] == data@[u] ^ keystream_byte(s0, u as nat),
        decreases n - t,
    {
        i = i.wrapping_add(1);
        j = j.wrapping_add(s[i as usize]);
        swap_bytes(s, i as usize, j as usize);
        let k = s[(s[i as usize].wrapping_add(s[j as usize])) as usize];
        out.push(data[t] ^ k);
        t += 1;
    }
    out
}

// ---------------------------------------------------------------- padding

/// The 32-byte password padding string (ISO 32000-1 §7.6.3.3, Algorithm 2).
pub const PAD: [u8; 32] = [
    0x28, 0xBF, 0x4E, 0x5E, 0x4E, 0x75, 0x8A, 0x41, 0x64, 0x00, 0x4E, 0x56, 0xFF, 0xFA, 0x01, 0x08,
    0x2E, 0x2E, 0x00, 0xB6, 0xD0, 0x68, 0x3E, 0x80, 0x2F, 0x0C, 0xA9, 0xFE, 0x64, 0x53, 0x69, 0x7A,
];

/// The padding string as a byte sequence.
pub open spec fn pad_seq() -> Seq<u8> {
    seq![
        0x28u8, 0xBFu8, 0x4Eu8, 0x5Eu8, 0x4Eu8, 0x75u8, 0x8Au8, 0x41u8, 0x64u8, 0x00u8, 0x4Eu8,
        0x56u8, 0xFFu8, 0xFAu8, 0x01u8, 0x08u8, 0x2Eu8, 0x2Eu8, 0x00u8, 0xB6u8, 0xD0u8, 0x68u8,
        0x3Eu8, 0x80u8, 0x2Fu8, 0x0Cu8, 0xA9u8, 0xFEu8, 0x64u8, 0x53u8, 0x69u8, 0x7Au8,
    ]
}

/// A password brought to 32 bytes: truncated, or completed from the padding string.
pub open spec fn pad_password_spec(pw: Seq<u8>) -> Seq<u8> {
    if pw.len() >= 32 {
        pw.subrange(0, 32)
    } else {
        pw + pad_seq().subrange(0, 32 - pw.len())
    }
}

/// The padding string as a vector.
fn pad_vec() -> (r: Vec<u8>)
    ensures
        r@ == pad_seq(),
{
    let p = PAD;
    let mut v: Vec<u8> = Vec::new();
    extend_bytes(&mut v, p.as_slice());
    assert(p@ =~= pad_seq());
    v
}

/// Pad or truncate a password to the 32-byte standard form.
pub fn pad_password(pw: &[u8]) -> (r: Vec<u8>)
    ensures
        r@ == pad_password_spec(pw@),
        r@.len() == 32,
{
    let n = if pw.len() < 32 { pw.len() } else { 32 };
    let mut out: Vec<u8> = Vec::new();
    extend_bytes(&mut out, &pw[0..n]);
    let pad = pad_vec();
    extend_bytes(&mut out, &pad.as_slice()[0..32 - n]);
    proof {
        if pw@.len() >= 32 {
            assert(pad_seq().subrange(0, 0) =~= Seq::<u8>::empty());
            assert(out@ =~= pw@.subrange(0, 32));
        } else {
            assert(pw@.subrange(0, n as int) =~= pw@);
        }
    }
    out
}

// ---------------------------------------------------------------- little helpers

/// The little-endian bytes of a 32-bit value.
pub open spec fn le32(x: u32) -> Seq<u8> {
    seq![(x % 256) as u8, ((x / 256) % 256) as u8, ((x / 0x1_0000) % 256) as u8, (x / 0x100_0000) as u8]
}

/// Appends `x` in little-endian byte order, keeping the first `count` bytes.
fn push_le32(out: &mut Vec<u8>, x: u32, count: usize)
    requires
        count <= 4,
    ensures
        final(out)@ == old(out)@ + le32(x).subrange(0, count as int),
{
    let bytes: [u8; 4] = [x as u8, (x >> 8) as u8, (x >> 16) as u8, (x >> 24) as u8];
    assert(x as u8 == (x % 256) as u8 && (x >> 8u32) as u8 == ((x / 256) % 256) as u8 && (x >> 16u32) as u8
        == ((x / 0x1_0000) % 256) as u8 && (x >> 24u32) as u8 == (x / 0x100_0000) as u8)
        by (bit_vector);
    assert(bytes@ =~= le32(x));
    extend_bytes(out, &bytes.as_slice()[0..count]);
}

/// `key` with every byte XORed with `i`.
pub open spec fn xor_key_spec(key: Seq<u8>, i: u8) -> Seq<u8> {
    key.map_values(|b: u8| b ^ i)
}

/// Every key byte XORed with `i`.
fn xor_key(key: &[u8], i: u8) -> (r: Vec<u8>)
    ensures
        r@ == xor_key_spec(key@, i),
{
    let mut out: Vec<u8> = Vec::new();
    let n = key.len();
    let mut t: usize = 0;
    while t < n
        invariant
            n == key@.len(),
            t <= n,
            out@ =~= xor_key_spec(key@, i).subrange(0, t as int),
        decreases n - t,
    {
        out.push(key[t] ^ i);
        t += 1;
    }
    assert(out@ =~= xor_key_spec(key@, i));
    out
}

/// The first sixteen bytes, when there are that many.
pub open spec fn prefix16(s: Seq<u8>) -> Option<Seq<u8>> {
    if s.len() >= 16 {
        Some(s.subrange(0, 16))
    } else {
        None
    }
}

// ---------------------------------------------------------------- key derivation, R2–R4

/// The 50× MD5 strengthening rounds: each digests the first `n` bytes of the last.
pub open spec fn md5_rounds(h: Seq<u8>, n: nat, k: nat) -> Seq<u8>
    decreases k,
{
    if k == 0 {
        h
    } else {
        md5_of(md5_rounds(h, n, (k - 1) as nat).subrange(0, n as int))
    }
}

/// Algorithm 2 step (h): the strengthening applies for R ≥ 3 only.
pub open spec fn md5_iterations_spec(h: Seq<u8>, n: nat, r: i64) -> Seq<u8> {
    if r >= 3 {
        md5_rounds(h, n, 50)
    } else {
        h
    }
}

/// The 50× MD5 strengthening loop for R≥3 (Algorithm 2 step (h)).
fn md5_iterations(hash: Vec<u8>, n: usize, r: i64) -> (out: Vec<u8>)
    requires
        hash@.len() == 16,
        n <= 16,
    ensures
        out@ == md5_iterations_spec(hash@, n as nat, r),
        out@.len() == 16,
{
    let mut hash = hash;
    if r >= 3 {
        let ghost h0 = hash@;
        let mut round: usize = 0;
        while round < 50
            invariant
                round <= 50,
                n <= 16,
                hash@.len() == 16,
                hash@ == md5_rounds(h0, n as nat, round as nat),
            decreases 50 - round,
        {
            hash = md5_digest(&hash.as_slice()[0..n]);
            round += 1;
        }
    }
    hash
}

/// The owner RC4 key (Algorithm 3 steps (a)–(d)).
pub open spec fn owner_key_spec(owner_pw: Seq<u8>, n: nat, r: i64) -> Seq<u8> {
    md5_iterations_spec(md5_of(pad_password_spec(owner_pw)), n, r).subrange(0, n as int)
}

/// The owner RC4 key (Algorithm 3 steps (a)–(d)).
fn owner_key(owner_pw: &[u8], n: usize, r: i64) -> (out: Vec<u8>)
    requires
        n <= 16,
    ensures
        out@ == owner_key_spec(owner_pw@, n as nat, r),
        out@.len() == n,
{
    let padded = pad_password(owner_pw);
    let hash = md5_digest(padded.as_slice());
    let hash = md5_iterations(hash, n, r);
    slice_to_vec(&hash.as_slice()[0..n])
}

/// RC4 with `key ^ i` for `i` from `m - 1` down to 0, applied in that order.
pub open spec fn owner_rounds_spec(key: Seq<u8>, data: Seq<u8>, m: nat) -> Seq<u8>
    decreases m,
{
    if m == 0 {
        data
    } else {
        owner_rounds_spec(key, rc4_spec(xor_key_spec(key, (m - 1) as u8), data), (m - 1) as nat)
    }
}

/// Algorithm 7: RC4 over `/O`, once for R2, twenty times (keys `key ^ 19` … `key ^ 0`) for R≥3.
pub open spec fn rc4_owner_rounds_spec(key: Seq<u8>, o: Seq<u8>, r: i64) -> Seq<u8> {
    if r < 3 {
        rc4_spec(key, o)
    } else {
        owner_rounds_spec(key, o, 20)
    }
}

/// Run the RC4 owner rounds over `/O` to recover the user password.
pub fn rc4_owner_rounds(key: &[u8], o: &[u8], r: i64) -> (out: Vec<u8>)
    requires
        key@.len() > 0,
    ensures
        out@ == rc4_owner_rounds_spec(key@, o@, r),
{
    if r < 3 {
        return rc4(key, o);
    }
    let mut data = slice_to_vec(o);
    let mut i: u8 = 20;
    while i > 0
        invariant
            i <= 20,
            key@.len() > 0,
            owner_rounds_spec(key@, o@, 20) == owner_rounds_spec(key@, data@, i as nat),
        decreases i,
    {
        let round_key = xor_key(key, i - 1);
        data = rc4(round_key.as_slice(), data.as_slice());
        i -= 1;
    }
    data
}

/// RC4 with `key ^ 1`, …, `key ^ m` applied in that order.
pub open spec fn u_rounds_spec(key: Seq<u8>, data: Seq<u8>, m: nat) -> Seq<u8>
    decreases m,
{
    if m == 0 {
        data
    } else {
        rc4_spec(xor_key_spec(key, m as u8), u_rounds_spec(key, data, (m - 1) as nat))
    }
}

/// `/U` recomputed from a file key: Algorithm 4 (R2) or Algorithm 5 (R≥3).
pub open spec fn compute_u_spec(key: Seq<u8>, id0: Seq<u8>, r: i64) -> Seq<u8> {
    if r < 3 {
        rc4_spec(key, pad_seq())
    } else {
        u_rounds_spec(key, rc4_spec(key, md5_of(pad_seq() + id0)), 19)
    }
}

/// Compute `/U` from a file key (Algorithm 4 for R2, Algorithm 5 for R≥3); only
/// the first 16 bytes are significant for validation.
pub fn compute_u(key: &[u8], id0: &[u8], r: i64) -> (out: Vec<u8>)
    requires
        key@.len() > 0,
    ensures
        out@ == compute_u_spec(key@, id0@, r),
{
    let pad = pad_vec();
    if r < 3 {
        return rc4(key, pad.as_slice());
    }
    let mut msg = pad;
    extend_bytes(&mut msg, id0);
    let h = md5_digest(msg.as_slice());
    let mut data = rc4(key, h.as_slice());
    let ghost start = data@;
    let mut i: u8 = 1;
    while i <= 19
        invariant
            1 <= i <= 20,
            key@.len() > 0,
            data@ == u_rounds_spec(key@, start, (i - 1) as nat),
        decreases 20 - i,
    {
        let round_key = xor_key(key, i);
        data = rc4(round_key.as_slice(), data.as_slice());
        i += 1;
    }
    data
}

/// A copy of a byte slice as a vector.
fn slice_to_vec(s: &[u8]) -> (r: Vec<u8>)
    ensures
        r@ == s@,
{
    let mut v: Vec<u8> = Vec::new();
    extend_bytes(&mut v, s);
    v
}

// ---------------------------------------------------------------- key derivation, R6

/// `b` repeated `times` times.
pub open spec fn repeat_spec(b: Seq<u8>, times: nat) -> Seq<u8>
    decreases times,
{
    if times == 0 {
        seq![]
    } else {
        repeat_spec(b, (times - 1) as nat) + b
    }
}

/// What an AES-128-CBC unpadded encryption yields, or nothing when it fails.
pub open spec fn seal_or_empty(key: Seq<u8>, iv: Seq<u8>, data: Seq<u8>) -> Seq<u8> {
    match aes128_cbc_raw_seal(key, iv, data) {
        Some(v) => v,
        None => seq![],
    }
}

/// One R6 round: AES-128-CBC (key `K[0..16]`, IV `K[16..32]`) of 64× `password‖K‖udata`.
pub open spec fn r6_round_spec(password: Seq<u8>, k: Seq<u8>, udata: Seq<u8>) -> Seq<u8> {
    seal_or_empty(k.subrange(0, 16), k.subrange(16, 32), repeat_spec(password + k + udata, 64))
}

/// The sum of the first `m` bytes.
pub open spec fn sum_prefix(e: Seq<u8>, m: nat) -> int
    decreases m,
{
    if m == 0 {
        0
    } else {
        sum_prefix(e, (m - 1) as nat) + e[m - 1]
    }
}

/// The next K: SHA-256, SHA-384 or SHA-512 of `E`, chosen by the sum of its
/// first sixteen bytes modulo 3.
pub open spec fn r6_next_k_spec(e: Seq<u8>) -> Seq<u8> {
    let m = sum_prefix(e, if e.len() < 16 { e.len() } else { 16 }) % 3;
    if m == 0 {
        sha256_of(e)
    } else if m == 1 {
        sha384_of(e)
    } else {
        sha512_of(e)
    }
}

/// The last byte, or 0 for an empty sequence.
pub open spec fn last_or_zero(e: Seq<u8>) -> u8 {
    if e.len() > 0 {
        e.last()
    } else {
        0
    }
}

/// The Algorithm 2.B rounds from K, having completed `round` rounds: stop after
/// a round numbered at least 64 whose `E` ends in a byte ≤ round − 32.
pub open spec fn hash_r6_from(password: Seq<u8>, k: Seq<u8>, udata: Seq<u8>, round: nat) -> Seq<u8>
    decreases 300 - round,
{
    let e = r6_round_spec(password, k, udata);
    let k2 = r6_next_k_spec(e);
    let round2 = round + 1;
    if round2 >= 64 && last_or_zero(e) <= round2 - 32 {
        k2.subrange(0, 32)
    } else if round2 >= 300 {
        k2.subrange(0, 32)
    } else {
        hash_r6_from(password, k2, udata, round2)
    }
}

/// Algorithm 2.B (R6): the iterated SHA-256/384/512 + AES-128 password hash.
pub open spec fn hash_r6_spec(password: Seq<u8>, salt: Seq<u8>, udata: Seq<u8>) -> Seq<u8> {
    hash_r6_from(password, sha256_of(password + salt + udata), udata, 0)
}

/// One R6 round: AES-128-CBC encrypt of 64× `(password‖K‖udata)`.
fn r6_round(password: &[u8], k: &[u8], udata: &[u8]) -> (e: Vec<u8>)
    requires
        k@.len() >= 32,
        (password@.len() + k@.len() + udata@.len()) * 64 <= usize::MAX,
    ensures
        e@ == r6_round_spec(password@, k@, udata@),
{
    let mut block: Vec<u8> = Vec::new();
    extend_bytes(&mut block, password);
    extend_bytes(&mut block, k);
    extend_bytes(&mut block, udata);
    let mut k1: Vec<u8> = Vec::new();
    let mut t: usize = 0;
    while t < 64
        invariant
            t <= 64,
            block@ == password@ + k@ + udata@,
            block@.len() * 64 <= usize::MAX,
            k1@ == repeat_spec(block@, t as nat),
            k1@.len() == block@.len() * t,
        decreases 64 - t,
    {
        assert(block@.len() * t + block@.len() <= block@.len() * 64) by (nonlinear_arith)
            requires
                t < 64,
        ;
        assert(block@.len() * t + block@.len() == block@.len() * (t + 1)) by (nonlinear_arith);
        extend_bytes(&mut k1, block.as_slice());
        t += 1;
    }
    assert(k1@.len() % 16 == 0) by (nonlinear_arith)
        requires
            k1@.len() == block@.len() * 64,
    ;
    match aes128_cbc_encrypt_nopad(&k[0..16], &k[16..32], k1.as_slice()) {
        Some(v) => v,
        None => Vec::new(),
    }
}

/// Pick the next K hash width by `E mod 3` (sum of the first 16 bytes).
fn r6_next_k(e: &[u8]) -> (k: Vec<u8>)
    ensures
        k@ == r6_next_k_spec(e@),
        32 <= k@.len() <= 64,
{
    let m = if e.len() < 16 { e.len() } else { 16 };
    let mut sum: u32 = 0;
    let mut t: usize = 0;
    while t < m
        invariant
            m <= 16,
            m <= e@.len(),
            t <= m,
            sum == sum_prefix(e@, t as nat),
            sum <= 255 * t,
        decreases m - t,
    {
        sum = sum + e[t] as u32;
        t += 1;
    }
    let sel = sum % 3;
    if sel == 0 {
        sha256_digest(e)
    } else if sel == 1 {
        sha384_digest(e)
    } else {
        sha512_digest(e)
    }
}

/// Algorithm 2.B (R6): the iterated SHA-256/384/512 + AES-128 password hash.
fn hash_r6(password: &[u8], salt: &[u8], udata: &[u8]) -> (r: Vec<u8>)
    requires
        (password@.len() + 64 + udata@.len()) * 64 <= usize::MAX,
    ensures
        r@ == hash_r6_spec(password@, salt@, udata@),
        r@.len() == 32,
{
    let mut input: Vec<u8> = Vec::new();
    extend_bytes(&mut input, password);
    extend_bytes(&mut input, salt);
    extend_bytes(&mut input, udata);
    let mut k = sha256_digest(input.as_slice());
    let mut round: usize = 0;
    loop
        invariant
            32 <= k@.len() <= 64,
            round < 288,
            (password@.len() + 64 + udata@.len()) * 64 <= usize::MAX,
            hash_r6_spec(password@, salt@, udata@) == hash_r6_from(password@, k@, udata@, round as nat),
        decreases 288 - round,
    {
        let e = r6_round(password, k.as_slice(), udata);
        k = r6_next_k(e.as_slice());
        round += 1;
        let last: u8 = if e.len() > 0 { e[e.len() - 1] } else { 0 };
        if round >= 64 && (last as usize) <= round - 32 {
            return slice_to_vec(&k.as_slice()[0..32]);
        }
    }
}

// ---------------------------------------------------------------- the /Encrypt dictionary

/// The integer stored under `key`.
pub open spec fn entry_int(d: Seq<(Seq<char>, Val)>, key: Seq<char>) -> Option<i64> {
    match lookup(d, key) {
        Some(Val::Integer(n)) => Some(n),
        _ => None,
    }
}

/// The string bytes stored under `key`.
pub open spec fn entry_bytes(d: Seq<(Seq<char>, Val)>, key: Seq<char>) -> Option<Seq<u8>> {
    match lookup(d, key) {
        Some(Val::Str(b)) => Some(b),
        _ => None,
    }
}

/// The name stored under `key`.
pub open spec fn entry_name(d: Seq<(Seq<char>, Val)>, key: Seq<char>) -> Option<Seq<char>> {
    match lookup(d, key) {
        Some(Val::Name(n)) => Some(n),
        _ => None,
    }
}

/// The dictionary (or a stream's dictionary) stored under `key`.
pub open spec fn entry_dict(d: Seq<(Seq<char>, Val)>, key: Seq<char>) -> Option<
    Seq<(Seq<char>, Val)>,
> {
    match lookup(d, key) {
        Some(Val::Dict(e)) => Some(e),
        Some(Val::Stream(e, _)) => Some(e),
        _ => None,
    }
}

/// The fields read from an `/Encrypt` dictionary.
pub struct EncryptParams {
    pub r: i64,
    pub length: usize,
    pub o: Seq<u8>,
    pub u: Seq<u8>,
    pub oe: Seq<u8>,
    pub ue: Seq<u8>,
    pub p: i64,
}

/// The parameters of an `/Encrypt` dictionary: `/R`, `/O`, `/U` and `/P` are
/// required; `/Length` defaults to 40 and `/OE`, `/UE` to empty.
pub open spec fn params_spec(d: Seq<(Seq<char>, Val)>) -> Option<EncryptParams> {
    match (entry_int(d, "R"@), entry_bytes(d, "O"@), entry_bytes(d, "U"@), entry_int(d, "P"@)) {
        (Some(r), Some(o), Some(u), Some(p)) => Some(
            EncryptParams {
                r,
                length: (match entry_int(d, "Length"@) {
                    Some(n) => n,
                    None => 40,
                }) as usize,
                o,
                u,
                oe: match entry_bytes(d, "OE"@) {
                    Some(b) => b,
                    None => seq![],
                },
                ue: match entry_bytes(d, "UE"@) {
                    Some(b) => b,
                    None => seq![],
                },
                p,
            },
        ),
        _ => None,
    }
}

/// The per-object cipher of a security handler.
#[derive(Debug, Clone, Copy, PartialEq, Eq, Structural)]
pub enum Method {
    Rc4,
    AesV2,
    AesV3,
}

/// The `/CF /StdCF /CFM` crypt-filter method name.
pub open spec fn cfm_spec(d: Seq<(Seq<char>, Val)>) -> Option<Seq<char>> {
    match entry_dict(d, "CF"@) {
        Some(cf) => match entry_dict(cf, "StdCF"@) {
            Some(sf) => entry_name(sf, "CFM"@),
            None => None,
        },
        None => None,
    }
}

/// The cipher implied by `/V` and, for `/V 4`, the crypt filter's method.
pub open spec fn method_spec(d: Seq<(Seq<char>, Val)>) -> Method {
    let v = match entry_int(d, "V"@) {
        Some(n) => n,
        None => 0,
    };
    if v == 5 {
        Method::AesV3
    } else if v == 4 {
        if cfm_spec(d) == Some("AESV3"@) {
            Method::AesV3
        } else if cfm_spec(d) == Some("AESV2"@) {
            Method::AesV2
        } else {
            Method::Rc4
        }
    } else {
        Method::Rc4
    }
}

/// Algorithm 2 proper: the file key for a candidate user password.
pub open spec fn key_from_user_pw_spec(p: EncryptParams, id0: Seq<u8>, user_pw: Seq<u8>) -> Seq<u8> {
    let n = p.length / 8;
    md5_iterations_spec(
        md5_of(pad_password_spec(user_pw) + p.o + le32(p.p as u32) + id0),
        n as nat,
        p.r,
    ).subrange(0, n as int)
}

/// A candidate file key reproduces the first sixteen bytes of `/U`.
pub open spec fn user_validates_spec(p: EncryptParams, key: Seq<u8>, id0: Seq<u8>) -> bool {
    prefix16(compute_u_spec(key, id0, p.r)) == prefix16(p.u)
}

/// Algorithm 7: the user password recovered from `/O` with the owner password.
pub open spec fn recover_via_owner_spec(p: EncryptParams, owner_pw: Seq<u8>) -> Seq<u8> {
    rc4_owner_rounds_spec(owner_key_spec(owner_pw, (p.length / 8) as nat, p.r), p.o, p.r)
}

/// R2–R4: the key for `password` as the user password if it validates, else as
/// the owner password if that validates, else the user-password key.
pub open spec fn derive_key_r4_spec(p: EncryptParams, id0: Seq<u8>, password: Seq<u8>) -> Seq<u8> {
    let as_user = key_from_user_pw_spec(p, id0, password);
    let as_owner = key_from_user_pw_spec(p, id0, recover_via_owner_spec(p, password));
    if user_validates_spec(p, as_user, id0) {
        as_user
    } else if user_validates_spec(p, as_owner, id0) {
        as_owner
    } else {
        as_user
    }
}

/// Sixteen zero bytes (the IV of the R6 key unwrap).
pub open spec fn zero_iv() -> Seq<u8> {
    Seq::new(16, |i: int| 0u8)
}

/// An unpadded AES-256-CBC decryption, or nothing when it fails.
pub open spec fn open_or_empty(key: Seq<u8>, iv: Seq<u8>, data: Seq<u8>) -> Seq<u8> {
    match aes256_cbc_raw_open(key, iv, data) {
        Some(v) => v,
        None => seq![],
    }
}

/// R6 user path: `/U` validates the password, `/UE` is unwrapped with the
/// intermediate key.
pub open spec fn r6_user_spec(p: EncryptParams, password: Seq<u8>) -> Option<Seq<u8>> {
    if p.u.len() >= 48 && hash_r6_spec(password, p.u.subrange(32, 40), seq![]) == p.u.subrange(0, 32) {
        Some(open_or_empty(hash_r6_spec(password, p.u.subrange(40, 48), seq![]), zero_iv(), p.ue))
    } else {
        None
    }
}

/// R6 owner path: `/O` (salted with `/U`) validates the password, `/OE` is unwrapped.
pub open spec fn r6_owner_spec(p: EncryptParams, password: Seq<u8>) -> Option<Seq<u8>> {
    if p.u.len() >= 48 && p.o.len() >= 48 && hash_r6_spec(password, p.o.subrange(32, 40), p.u.subrange(0, 48))
        == p.o.subrange(0, 32) {
        Some(
            open_or_empty(
                hash_r6_spec(password, p.o.subrange(40, 48), p.u.subrange(0, 48)),
                zero_iv(),
                p.oe,
            ),
        )
    } else {
        None
    }
}

/// The file key for `password`: R6 (user, then owner path) or R2–R4.
pub open spec fn derive_key_spec(p: EncryptParams, id0: Seq<u8>, password: Seq<u8>) -> Option<Seq<u8>> {
    if p.r >= 5 {
        match r6_user_spec(p, password) {
            Some(k) => Some(k),
            None => r6_owner_spec(p, password),
        }
    } else {
        Some(derive_key_r4_spec(p, id0, password))
    }
}

/// The file key and cipher configured by an `/Encrypt` dictionary, or `None`
/// for a non-Standard handler, missing parameters or a failed R6 password.
pub open spec fn from_encrypt_spec(d: Seq<(Seq<char>, Val)>, id0: Seq<u8>, password: Seq<u8>) -> Option<
    (Seq<u8>, Method),
> {
    if entry_name(d, "Filter"@) != Some("Standard"@) {
        None
    } else {
        match params_spec(d) {
            None => None,
            Some(p) => match derive_key_spec(p, id0, password) {
                Some(k) => Some((k, method_spec(d))),
                None => None,
            },
        }
    }
}

/// The inputs on which the key derivation is defined: R2–R4 key lengths of 1
/// to 16 bytes (`/Length` 8..=135 bits), and for R6 a password whose 64-fold
/// hash round input fits in memory.
pub open spec fn derivation_defined(d: Seq<(Seq<char>, Val)>, password_len: nat) -> bool {
    entry_name(d, "Filter"@) == Some("Standard"@) ==> match params_spec(d) {
        Some(p) => if p.r >= 5 {
            (password_len + 112) * 64 <= usize::MAX
        } else {
            1 <= p.length / 8 <= 16
        },
        None => true,
    }
}

/// Whether the key derivation is defined for an `/Encrypt` dictionary and a
/// password of `password_len` bytes (see [`derivation_defined`]).
pub fn derivation_ok(dict: &Dictionary, password_len: usize) -> (r: bool)
    ensures
        r == derivation_defined(dict@, password_len as nat),
{
    let standard = match dict.get("Filter") {
        Some(o) => match o.as_name() {
            Some(n) => str_eq(n, "Standard"),
            None => false,
        },
        None => false,
    };
    if !standard {
        return true;
    }
    match Params::read(dict) {
        None => true,
        Some(p) => if p.r >= 5 {
            (password_len as u128 + 112) * 64 <= usize::MAX as u128
        } else {
            1 <= p.length / 8 && p.length / 8 <= 16
        },
    }
}

/// The numeric and byte fields read from an `/Encrypt` dictionary.
struct Params {
    r: i64,
    length: usize,
    o: Vec<u8>,
    u: Vec<u8>,
    oe: Vec<u8>,
    ue: Vec<u8>,
    p: i64,
}

impl Params {
    spec fn view(&self) -> EncryptParams {
        EncryptParams {
            r: self.r,
            length: self.length,
            o: self.o@,
            u: self.u@,
            oe: self.oe@,
            ue: self.ue@,
            p: self.p,
        }
    }

    fn read(dict: &Dictionary) -> (r: Option<Params>)
        ensures
            match params_spec(dict@) {
                Some(p) => r matches Some(q) && q.view() == p,
                None => r is None,
            },
    {
        let r = dict_int(dict, "R")?;
        let length = match dict_int(dict, "Length") {
            Some(n) => n,
            None => 40,
        } as usize;
        let o = dict_bytes(dict, "O")?;
        let u = dict_bytes(dict, "U")?;
        let oe = match dict_bytes(dict, "OE") {
            Some(b) => b,
            None => Vec::new(),
        };
        let ue = match dict_bytes(dict, "UE") {
            Some(b) => b,
            None => Vec::new(),
        };
        let p = dict_int(dict, "P")?;
        Some(Params { r, length, o, u, oe, ue, p })
    }

    /// The cipher implied by `/V` and the `/CF` crypt-filter method.
    fn method(&self, dict: &Dictionary) -> (m: Method)
        ensures
            m == method_spec(dict@),
    {
        let v = match dict_int(dict, "V") {
            Some(n) => n,
            None => 0,
        };
        if v == 5 {
            Method::AesV3
        } else if v == 4 {
            self.cf_method(dict)
        } else {
            Method::Rc4
        }
    }

    fn cf_method(&self, dict: &Dictionary) -> (m: Method)
        requires
            entry_int(dict@, "V"@) == Some(4i64),
        ensures
            m == method_spec(dict@),
    {
        match cfm(dict) {
            Some(name) => {
                if str_eq(name.as_str(), "AESV3") {
                    Method::AesV3
                } else if str_eq(name.as_str(), "AESV2") {
                    Method::AesV2
                } else {
                    Method::Rc4
                }
            },
            None => Method::Rc4,
        }
    }

    /// Derive the file encryption key for the password (R6 or R2–R4).
    fn derive_key(&self, id0: &[u8], password: &[u8]) -> (k: Option<Vec<u8>>)
        requires
            self.r >= 5 ==> (password@.len() + 112) * 64 <= usize::MAX,
            self.r < 5 ==> 1 <= self.length / 8 <= 16,
        ensures
            match derive_key_spec(self.view(), id0@, password@) {
                Some(key) => k matches Some(v) && v@ == key,
                None => k is None,
            },
    {
        if self.r >= 5 {
            self.derive_key_r6(password)
        } else {
            Some(self.derive_key_r4(id0, password))
        }
    }

    /// Algorithm 2 (R2–R4): try `password` as the user password, then as the
    /// owner password (recovering the user password via `/O`), validating each
    /// candidate key against `/U`. Falls back to the user-password key.
    fn derive_key_r4(&self, id0: &[u8], password: &[u8]) -> (k: Vec<u8>)
        requires
            1 <= self.length / 8 <= 16,
        ensures
            k@ == derive_key_r4_spec(self.view(), id0@, password@),
    {
        let as_user = self.key_from_user_pw(id0, password);
        if self.user_validates(as_user.as_slice(), id0) {
            return as_user;
        }
        let recovered = self.recover_via_owner(password);
        let as_owner = self.key_from_user_pw(id0, recovered.as_slice());
        if self.user_validates(as_owner.as_slice(), id0) {
            return as_owner;
        }
        as_user
    }

    /// Algorithm 2 proper: the file key for a (candidate) user password.
    fn key_from_user_pw(&self, id0: &[u8], user_pw: &[u8]) -> (k: Vec<u8>)
        requires
            1 <= self.length / 8 <= 16,
        ensures
            k@ == key_from_user_pw_spec(self.view(), id0@, user_pw@),
            k@.len() == self.length / 8,
    {
        let mut msg = pad_password(user_pw);
        extend_bytes(&mut msg, self.o.as_slice());
        push_le32(&mut msg, self.p as u32, 4);
        extend_bytes(&mut msg, id0);
        let n = self.length / 8;
        let hash = md5_iterations(md5_digest(msg.as_slice()), n, self.r);
        proof {
            assert(le32(self.p as u32).subrange(0, 4) =~= le32(self.p as u32));
        }
        slice_to_vec(&hash.as_slice()[0..n])
    }

    /// Recover the user password from `/O` using the owner password (Algorithm 7).
    fn recover_via_owner(&self, owner_pw: &[u8]) -> (pw: Vec<u8>)
        requires
            1 <= self.length / 8 <= 16,
        ensures
            pw@ == recover_via_owner_spec(self.view(), owner_pw@),
    {
        let okey = owner_key(owner_pw, self.length / 8, self.r);
        rc4_owner_rounds(okey.as_slice(), self.o.as_slice(), self.r)
    }

    /// Validate a file key by recomputing `/U` (Algorithm 4/5) and comparing.
    fn user_validates(&self, key: &[u8], id0: &[u8]) -> (b: bool)
        requires
            key@.len() > 0,
        ensures
            b == user_validates_spec(self.view(), key@, id0@),
    {
        let u = compute_u(key, id0, self.r);
        let a_ok = u.len() >= 16;
        let b_ok = self.u.len() >= 16;
        if a_ok && b_ok {
            let same = bytes_prefix_eq(u.as_slice(), self.u.as_slice(), 16);
            proof {
                assert(same == (u@.subrange(0, 16) =~= self.u@.subrange(0, 16)));
            }
            same
        } else {
            !a_ok && !b_ok
        }
    }

    /// Algorithm 2.A (R6), AES-256, trying the user then the owner path.
    fn derive_key_r6(&self, password: &[u8]) -> (k: Option<Vec<u8>>)
        requires
            (password@.len() + 112) * 64 <= usize::MAX,
        ensures
            match r6_user_spec(self.view(), password@) {
                Some(key) => k matches Some(v) && v@ == key,
                None => match r6_owner_spec(self.view(), password@) {
                    Some(key) => k matches Some(v) && v@ == key,
                    None => k is None,
                },
            },
    {
        match self.r6_user(password) {
            Some(k) => Some(k),
            None => self.r6_owner(password),
        }
    }

    fn r6_user(&self, password: &[u8]) -> (k: Option<Vec<u8>>)
        requires
            (password@.len() + 112) * 64 <= usize::MAX,
        ensures
            match r6_user_spec(self.view(), password@) {
                Some(key) => k matches Some(v) && v@ == key,
                None => k is None,
            },
    {
        if self.u.len() < 48 {
            return None;
        }
        let u = self.u.as_slice();
        let empty: Vec<u8> = Vec::new();
        let check = hash_r6(password, &u[32..40], empty.as_slice());
        if !bytes_eq_vec(check.as_slice(), &u[0..32]) {
            return None;
        }
        let ik = hash_r6(password, &u[40..48], empty.as_slice());
        assert(empty@ =~= Seq::<u8>::empty());
        Some(aes256_cbc_nopad(ik.as_slice(), self.ue.as_slice()))
    }

    fn r6_owner(&self, password: &[u8]) -> (k: Option<Vec<u8>>)
        requires
            (password@.len() + 112) * 64 <= usize::MAX,
        ensures
            match r6_owner_spec(self.view(), password@) {
                Some(key) => k matches Some(v) && v@ == key,
                None => k is None,
            },
    {
        if self.u.len() < 48 {
            return None;
        }
        let u48 = &self.u.as_slice()[0..48];
        let ik = self.r6_owner_key(password, u48)?;
        Some(aes256_cbc_nopad(ik.as_slice(), self.oe.as_slice()))
    }

    /// Validate the owner password against `/O` and return its intermediate key.
    fn r6_owner_key(&self, password: &[u8], u48: &[u8]) -> (k: Option<Vec<u8>>)
        requires
            u48@.len() == 48,
            (password@.len() + 112) * 64 <= usize::MAX,
        ensures
            if self.o@.len() >= 48 && hash_r6_spec(password@, self.o@.subrange(32, 40), u48@)
                == self.o@.subrange(0, 32) {
                k matches Some(v) && v@ == hash_r6_spec(password@, self.o@.subrange(40, 48), u48@)
            } else {
                k is None
            },
    {
        if self.o.len() < 48 {
            return None;
        }
        let o = self.o.as_slice();
        let check = hash_r6(password, &o[32..40], u48);
        if !bytes_eq_vec(check.as_slice(), &o[0..32]) {
            return None;
        }
        Some(hash_r6(password, &o[40..48], u48))
    }
}

/// Byte-wise equality of two slices.
fn bytes_eq_vec(a: &[u8], b: &[u8]) -> (r: bool)
    ensures
        r == (a@ == b@),
{
    crate::object::bytes_eq(a, b)
}

/// Equality of the first `n` bytes of two slices that are at least that long.
fn bytes_prefix_eq(a: &[u8], b: &[u8], n: usize) -> (r: bool)
    requires
        n <= a@.len(),
        n <= b@.len(),
    ensures
        r == (a@.subrange(0, n as int) == b@.subrange(0, n as int)),
{
    crate::object::bytes_eq(&a[0..n], &b[0..n])
}

/// AES-256-CBC unwrap without padding under a zero IV; empty on failure.
fn aes256_cbc_nopad(key: &[u8], data: &[u8]) -> (r: Vec<u8>)
    ensures
        r@ == open_or_empty(key@, zero_iv(), data@),
{
    let iv: [u8; 16] = [0u8; 16];
    assert(iv@ =~= zero_iv());
    match aes256_cbc_decrypt_nopad(key, iv.as_slice(), data) {
        Some(v) => v,
        None => Vec::new(),
    }
}

/// The `/CF /StdCF /CFM` crypt-filter method name.
fn cfm(dict: &Dictionary) -> (r: Option<String>)
    ensures
        match cfm_spec(dict@) {
            Some(n) => r matches Some(s) && s@ == n,
            None => r is None,
        },
{
    let cf = dict.get("CF")?.as_dict()?;
    let sf = cf.get("StdCF")?.as_dict()?;
    let name = sf.get("CFM")?.as_name()?;
    Some(name.to_owned())
}

/// The integer stored under `key`.
fn dict_int(dict: &Dictionary, key: &str) -> (r: Option<i64>)
    ensures
        r == entry_int(dict@, key@),
{
    match dict.get(key) {
        Some(v) => v.as_integer(),
        None => None,
    }
}

/// A copy of the string bytes stored under `key`.
fn dict_bytes(dict: &Dictionary, key: &str) -> (r: Option<Vec<u8>>)
    ensures
        match entry_bytes(dict@, key@) {
            Some(b) => r matches Some(v) && v@ == b,
            None => r is None,
        },
{
    let s = dict.get(key)?.as_string()?;
    Some(slice_to_vec(s))
}

// ---------------------------------------------------------------- per-object decryption

/// The per-object key (RC4 / AESV2): the first `min(len + 5, 16)` bytes of
/// `MD5(key ‖ num[0..3] ‖ generation[0..2] [‖ "sAlT"])`, numbers little-endian.
pub open spec fn object_key_spec(key: Seq<u8>, num: u32, generation: u16, aes: bool) -> Seq<u8> {
    let salt = if aes {
        seq![0x73u8, 0x41u8, 0x6cu8, 0x54u8]
    } else {
        seq![]
    };
    let n = if key.len() + 5 < 16 {
        key.len() + 5
    } else {
        16
    };
    md5_of(
        key + le32(num).subrange(0, 3) + seq![(generation % 256) as u8, (generation / 256) as u8]
            + salt,
    ).subrange(0, n as int)
}

/// CBC decryption with the IV in the first 16 bytes and PKCS#7 padding;
/// the input itself when it is shorter than an IV or does not decrypt.
pub open spec fn aes_open_spec(wide: bool, key: Seq<u8>, data: Seq<u8>) -> Seq<u8> {
    if data.len() < 16 {
        data
    } else {
        let iv = data.subrange(0, 16);
        let ct = data.subrange(16, data.len() as int);
        let r = if wide {
            aes256_cbc_pkcs7_open(key, iv, ct)
        } else {
            aes128_cbc_pkcs7_open(key, iv, ct)
        };
        match r {
            Some(v) => v,
            None => data,
        }
    }
}

/// One object's bytes decrypted at `num`/`generation`.
pub open spec fn decrypt_bytes_spec(key: Seq<u8>, method: Method, num: u32, generation: u16, data: Seq<u8>) -> Seq<u8> {
    match method {
        Method::Rc4 => rc4_spec(object_key_spec(key, num, generation, false), data),
        Method::AesV2 => aes_open_spec(false, object_key_spec(key, num, generation, true), data),
        Method::AesV3 => aes_open_spec(true, key, data),
    }
}

/// An object with every string and stream body decrypted; everything else,
/// names and keys included, unchanged.
pub open spec fn decrypt_val(key: Seq<u8>, method: Method, num: u32, generation: u16, v: Val) -> Val
    decreases v,
{
    match v {
        Val::Str(b) => Val::Str(decrypt_bytes_spec(key, method, num, generation, b)),
        Val::Array(items) => Val::Array(
            Seq::new(
                items.len(),
                |i: int|
                    if 0 <= i < items.len() {
                        decrypt_val(key, method, num, generation, items[i])
                    } else {
                        Val::Null
                    },
            ),
        ),
        Val::Dict(e) => Val::Dict(decrypt_entries(key, method, num, generation, e)),
        Val::Stream(e, data) => Val::Stream(
            decrypt_entries(key, method, num, generation, e),
            decrypt_bytes_spec(key, method, num, generation, data),
        ),
        _ => v,
    }
}

/// Dictionary entries with their values decrypted, keys and order unchanged.
pub open spec fn decrypt_entries(key: Seq<u8>, method: Method, num: u32, generation: u16, e: Seq<(Seq<char>, Val)>) -> Seq<(Seq<char>, Val)>
    decreases e,
{
    Seq::new(
        e.len(),
        |i: int|
            if 0 <= i < e.len() {
                (e[i].0, decrypt_val(key, method, num, generation, e[i].1))
            } else {
                (seq![], Val::Null)
            },
    )
}

/// A configured decryptor: the file key + the cipher to apply.
#[derive(Debug)]
pub struct Decryptor {
    key: Vec<u8>,
    method: Method,
}

impl Decryptor {
    /// The file key.
    pub closed spec fn key_view(&self) -> Seq<u8> {
        self.key@
    }

    /// The cipher.
    pub closed spec fn method_view(&self) -> Method {
        self.method
    }

    /// Build a decryptor from the `/Encrypt` dictionary, the first file-`/ID`
    /// element, and a user/owner password. Returns `None` for an unsupported or
    /// non-Standard handler.
    pub fn from_encrypt(dict: &Dictionary, id0: &[u8], password: &[u8]) -> (r: Option<Decryptor>)
        requires
            derivation_defined(dict@, password@.len()),
        ensures
            match from_encrypt_spec(dict@, id0@, password@) {
                Some((key, method)) => r matches Some(d) && d.key_view() == key && d.method_view()
                    == method,
                None => r is None,
            },
    {
        let filter = match dict.get("Filter") {
            Some(o) => o.as_name(),
            None => None,
        };
        let standard = match filter {
            Some(n) => str_eq(n, "Standard"),
            None => false,
        };
        if !standard {
            return None;
        }
        let p = Params::read(dict)?;
        let method = p.method(dict);
        let key = p.derive_key(id0, password)?;
        Some(Decryptor { key, method })
    }

    /// Decrypt one object's bytes (string or raw stream body) at `num`/`generation`.
    pub fn decrypt_bytes(&self, num: u32, generation: u16, data: &[u8]) -> (r: Vec<u8>)
        ensures
            r@ == decrypt_bytes_spec(self.key_view(), self.method_view(), num, generation, data@),
    {
        match self.method {
            Method::Rc4 => {
                let k = self.object_key(num, generation, false);
                rc4(k.as_slice(), data)
            },
            Method::AesV2 => {
                let k = self.object_key(num, generation, true);
                aes128_decrypt(k.as_slice(), data)
            },
            Method::AesV3 => aes256_decrypt(self.key.as_slice(), data),
        }
    }

    /// Decrypt every string and stream body inside an object.
    pub fn decrypt_object(&self, num: u32, generation: u16, obj: Object) -> (r: Object)
        ensures
            r@ == decrypt_val(self.key_view(), self.method_view(), num, generation, obj@),
    {
        self.decrypt_value(num, generation, &obj)
    }

    #[verifier::loop_isolation(false)]
    fn decrypt_value(&self, num: u32, generation: u16, obj: &Object) -> (r: Object)
        ensures
            r@ == decrypt_val(self.key@, self.method, num, generation, obj@),
        decreases obj@, 1int,
    {
        match obj {
            Object::String(b) => Object::String(self.decrypt_bytes(num, generation, b.as_slice())),
            Object::Array(items) => {
                proof {
                    crate::object::lemma_array_val(*items);
                }
                let out = self.decrypt_each(num, generation, items.as_slice(), Ghost(obj@));
                let r = Object::Array(out);
                assert(r@ == decrypt_val(self.key@, self.method, num, generation, obj@)) by {
                    if let (Val::Array(a), Val::Array(b)) = (
                        r@,
                        decrypt_val(self.key@, self.method, num, generation, obj@),
                    ) {
                        assert(a =~= b);
                    }
                }
                r
            },
            Object::Dictionary(d) => Object::Dictionary(self.decrypt_dict(num, generation, d)),
            Object::Stream(st) => {
                let dict = self.decrypt_dict(num, generation, &st.dict);
                let data = self.decrypt_bytes(num, generation, st.data.as_slice());
                Object::Stream(Stream { dict, data })
            },
            _ => obj.clone(),
        }
    }

    #[verifier::loop_isolation(false)]
    fn decrypt_each(&self, num: u32, generation: u16, items: &[Object], parent: Ghost<Val>) -> (r: Vec<Object>)
        requires
            parent@ is Array,
            parent@->Array_0 == crate::object::vals(items@),
        ensures
            r@.len() == items@.len(),
            forall|j: int| 0 <= j < items@.len() ==> (#[trigger] r@[j])@ == decrypt_val(self.key@, self.method, num, generation, items@[j]@),
        decreases parent@, 0int,
    {
        let mut out: Vec<Object> = Vec::new();
        let n = items.len();
        let mut i: usize = 0;
        while i < n
            invariant
                n == items@.len(),
                i <= n,
                out@.len() == i,
                forall|j: int| 0 <= j < i ==> (#[trigger] out@[j])@ == decrypt_val(self.key@, self.method, num, generation, items@[j]@),
            decreases n - i,
        {
            proof {
                assert(parent@->Array_0[i as int] == items@[i as int]@);
                assert(decreases_to!(parent@ => parent@->Array_0));
            }
            let v = self.decrypt_value(num, generation, &items[i]);
            out.push(v);
            i += 1;
        }
        out
    }

    #[verifier::loop_isolation(false)]
    fn decrypt_dict(&self, num: u32, generation: u16, dict: &Dictionary) -> (r: Dictionary)
        ensures
            r@ == decrypt_entries(self.key@, self.method, num, generation, dict@),
        decreases dict@, 1int,
    {
        let entries = dict.iter();
        let ghost target = decrypt_entries(self.key@, self.method, num, generation, dict@);
        let mut out = Dictionary::new();
        let n = entries.len();
        let mut i: usize = 0;
        while i < n
            invariant
                n == entries@.len(),
                n == dict@.len(),
                i <= n,
                out@ == target.subrange(0, i as int),
            decreases n - i,
        {
            proof {
                assert(entries@[i as int].1@ == dict@[i as int].1);
                assert(decreases_to!(dict@ => dict@[i as int]));
            }
            let v = self.decrypt_value(num, generation, &entries[i].1);
            let ghost before = out@;
            proof {
                assert forall|j: int| 0 <= j < before.len() implies (#[trigger] before[j]).0 != entries@[i as int].0@ by {
                    assert(before[j].0 == dict@[j].0);
                }
                lemma_entries_insert_absent(before, entries@[i as int].0@, v@);
            }
            out.insert(entries[i].0.as_str(), v);
            assert(out@ =~= target.subrange(0, i + 1));
            i += 1;
        }
        assert(target.subrange(0, n as int) =~= target);
        out
    }

    /// The per-object key (RC4 / AESV2): `MD5(key + num + generation [+ sAlT])`.
    fn object_key(&self, num: u32, generation: u16, aes: bool) -> (k: Vec<u8>)
        ensures
            k@ == object_key_spec(self.key@, num, generation, aes),
            k@.len() >= 5,
    {
        let mut msg: Vec<u8> = Vec::new();
        extend_bytes(&mut msg, self.key.as_slice());
        push_le32(&mut msg, num, 3);
        msg.push(generation as u8);
        msg.push((generation >> 8) as u8);
        assert(generation as u8 == (generation % 256) as u8 && (generation >> 8u16) as u8 == (
        generation / 256) as u8) by (bit_vector);
        if aes {
            msg.push(0x73);
            msg.push(0x41);
            msg.push(0x6c);
            msg.push(0x54);
        }
        let n = if self.key.len() < 11 { self.key.len() + 5 } else { 16 };
        let h = md5_digest(msg.as_slice());
        let ghost salt = if aes {
            seq![0x73u8, 0x41u8, 0x6cu8, 0x54u8]
        } else {
            seq![]
        };
        assert(msg@ =~= self.key@ + le32(num).subrange(0, 3) + seq![(generation % 256) as u8, (generation / 256) as u8] + salt);
        slice_to_vec(&h.as_slice()[0..n])
    }
}

/// AES-128-CBC decrypt with a leading IV and PKCS#7 padding; the input is
/// returned unchanged when it is too short or does not decrypt.
pub fn aes128_decrypt(key: &[u8], data: &[u8]) -> (r: Vec<u8>)
    ensures
        r@ == aes_open_spec(false, key@, data@),
{
    aes_decrypt(key, data, false)
}

/// AES-256-CBC decrypt with a leading IV and PKCS#7 padding; the input is
/// returned unchanged when it is too short or does not decrypt.
pub fn aes256_decrypt(key: &[u8], data: &[u8]) -> (r: Vec<u8>)
    ensures
        r@ == aes_open_spec(true, key@, data@),
{
    aes_decrypt(key, data, true)
}

/// Split off the 16-byte IV and run a CBC decrypt, falling back to the input on
/// any structural error.
fn aes_decrypt(key: &[u8], data: &[u8], wide: bool) -> (r: Vec<u8>)
    ensures
        r@ == aes_open_spec(wide, key@, data@),
{
    let n = data.len();
    if n < 16 {
        return slice_to_vec(data);
    }
    let iv = &data[0..16];
    let ct = &data[16..n];
    let opened = if wide {
        aes256_cbc_decrypt_pkcs7(key, iv, ct)
    } else {
        aes128_cbc_decrypt_pkcs7(key, iv, ct)
    };
    match opened {
        Some(v) => v,
        None => slice_to_vec(data),
    }
}

// ---------------------------------------------------------------- laws of the security handler

/// The RC4 / AESV2 key of object `num`/`generation`: the first
/// `min(len + 5, 16)` bytes of MD5 over the file key, the three low bytes of
/// the object number and the two bytes of the generation (little-endian),
/// followed by `sAlT` for AES.
pub open spec fn per_object_key(key: Seq<u8>, num: u32, generation: u16, salt: bool) -> Seq<u8> {
    let msg = key + seq![(num % 256) as u8, ((num / 256) % 256) as u8, ((num / 0x1_0000) % 256) as u8]
        + seq![(generation % 256) as u8, (generation / 256) as u8] + (if salt {
        seq![0x73u8, 0x41u8, 0x6cu8, 0x54u8]
    } else {
        seq![]
    });
    md5_of(msg).subrange(0, if key.len() + 5 < 16 { (key.len() + 5) as int } else { 16int })
}

/// Revision 2, 40-bit: the file key for a user password is the first five
/// bytes of MD5 over the password padded to 32 bytes, `/O`, `/P` (32-bit
/// little-endian) and the first file identifier; when RC4 of the padding
/// string under that key matches `/U` (first 16 bytes), the handler is set up
/// with that key and RC4.
pub proof fn lemma_r2_user_password_key(
    d: Seq<(Seq<char>, Val)>,
    id0: Seq<u8>,
    password: Seq<u8>,
    o: Seq<u8>,
    u: Seq<u8>,
    p: i64,
)
    requires
        lookup(d, "Filter"@) == Some(Val::Name("Standard"@)),
        lookup(d, "R"@) == Some(Val::Integer(2)),
        lookup(d, "O"@) == Some(Val::Str(o)),
        lookup(d, "U"@) == Some(Val::Str(u)),
        lookup(d, "P"@) == Some(Val::Integer(p)),
        lookup(d, "Length"@) is None,
        lookup(d, "V"@) is None,
        u.len() >= 16,
        ({
            let padded = if password.len() >= 32 {
                password.subrange(0, 32)
            } else {
                password + pad_seq().subrange(0, 32 - password.len())
            };
            let k = md5_of(padded + o + le32(p as u32) + id0).subrange(0, 5);
            rc4_spec(k, pad_seq()).len() >= 16 && rc4_spec(k, pad_seq()).subrange(0, 16) == u.subrange(0, 16)
        }),
    ensures
        ({
            let padded = if password.len() >= 32 {
                password.subrange(0, 32)
            } else {
                password + pad_seq().subrange(0, 32 - password.len())
            };
            from_encrypt_spec(d, id0, password) == Some((md5_of(padded + o + le32(p as u32) + id0).subrange(0, 5), Method::Rc4))
        }),
{
    let pr = params_spec(d)->0;
    assert(pr.length == 40);
    assert(pr.r == 2);
    let k = key_from_user_pw_spec(pr, id0, password);
    assert(user_validates_spec(pr, k, id0));
}

/// A `/V 4` handler whose `/StdCF` crypt filter names `/AESV2` decrypts with
/// AES-128-CBC under the salted per-object key: an IV-prefixed ciphertext that
/// opens to `p` decrypts to `p`.
pub proof fn lemma_v4_aesv2_decrypts_aes128(
    d: Seq<(Seq<char>, Val)>,
    cf: Seq<(Seq<char>, Val)>,
    sf: Seq<(Seq<char>, Val)>,
    id0: Seq<u8>,
    password: Seq<u8>,
    key: Seq<u8>,
    m: Method,
    num: u32,
    generation: u16,
    iv: Seq<u8>,
    ct: Seq<u8>,
    p: Seq<u8>,
)
    requires
        lookup(d, "V"@) == Some(Val::Integer(4)),
        lookup(d, "CF"@) == Some(Val::Dict(cf)),
        lookup(cf, "StdCF"@) == Some(Val::Dict(sf)),
        lookup(sf, "CFM"@) == Some(Val::Name("AESV2"@)),
        from_encrypt_spec(d, id0, password) == Some((key, m)),
        iv.len() == 16,
        aes128_cbc_pkcs7_open(per_object_key(key, num, generation, true), iv, ct) == Some(p),
    ensures
        m == Method::AesV2,
        decrypt_bytes_spec(key, m, num, generation, iv + ct) == p,
{
    reveal_strlit("AESV2");
    reveal_strlit("AESV3");
    assert("AESV2"@[4] == '2' && "AESV3"@[4] == '3');
    assert("AESV2"@ != "AESV3"@);
    assert(cfm_spec(d) == Some("AESV2"@));
    assert(method_spec(d) == Method::AesV2);
    let data = iv + ct;
    assert(data.subrange(0, 16) =~= iv);
    assert(data.subrange(16, data.len() as int) =~= ct);
    assert(le32(num).subrange(0, 3) =~= seq![(num % 256) as u8, ((num / 256) % 256) as u8, ((num / 0x1_0000) % 256) as u8]);
}

/// A `/V 4` handler whose `/StdCF` crypt filter names `/AESV3`, and every
/// `/V 5` handler, decrypts with AES-256-CBC under the file key itself.
pub proof fn lemma_aesv3_decrypts_aes256(
    d: Seq<(Seq<char>, Val)>,
    id0: Seq<u8>,
    password: Seq<u8>,
    key: Seq<u8>,
    m: Method,
    num: u32,
    generation: u16,
    iv: Seq<u8>,
    ct: Seq<u8>,
    p: Seq<u8>,
)
    requires
        lookup(d, "V"@) == Some(Val::Integer(5)) || (lookup(d, "V"@) == Some(Val::Integer(4)) && exists|cf: Seq<(Seq<char>, Val)>, sf: Seq<(Seq<char>, Val)>|
            lookup(d, "CF"@) == Some(Val::Dict(cf)) && lookup(cf, "StdCF"@) == Some(Val::Dict(sf)) && lookup(sf, "CFM"@)
                == Some(Val::Name("AESV3"@))),
        from_encrypt_spec(d, id0, password) == Some((key, m)),
        iv.len() == 16,
        aes256_cbc_pkcs7_open(key, iv, ct) == Some(p),
    ensures
        m == Method::AesV3,
        decrypt_bytes_spec(key, m, num, generation, iv + ct) == p,
{
    let data = iv + ct;
    assert(data.subrange(0, 16) =~= iv);
    assert(data.subrange(16, data.len() as int) =~= ct);
}

/// A handler with `/V` below 4 (or absent) uses RC4 under the unsalted
/// per-object key, so RC4-encrypting `p` under that key decrypts back to `p`.
pub proof fn lemma_low_v_decrypts_rc4(
    d: Seq<(Seq<char>, Val)>,
    id0: Seq<u8>,
    password: Seq<u8>,
    key: Seq<u8>,
    m: Method,
    num: u32,
    generation: u16,
    p: Seq<u8>,
)
    requires
        match lookup(d, "V"@) {
            Some(Val::Integer(v)) => v < 4,
            _ => true,
        },
        from_encrypt_spec(d, id0, password) == Some((key, m)),
    ensures
        m == Method::Rc4,
        decrypt_bytes_spec(key, m, num, generation, rc4_spec(per_object_key(key, num, generation, false), p)) == p,
{
    let k = per_object_key(key, num, generation, false);
    assert(le32(num).subrange(0, 3) =~= seq![(num % 256) as u8, ((num / 256) % 256) as u8, ((num / 0x1_0000) % 256) as u8]);
    assert(key + le32(num).subrange(0, 3) + seq![(generation % 256) as u8, (generation / 256) as u8] + Seq::<u8>::empty()
        =~= key + le32(num).subrange(0, 3) + seq![(generation % 256) as u8, (generation / 256) as u8]);
    lemma_rc4_involution(k, p);
}

// ---------------------------------------------------------------- trusted hash and cipher calls

/// What MD5 returns for `data`.
pub uninterp spec fn md5_of(data: Seq<u8>) -> Seq<u8>;

/// `Md5::digest(data)` (md-5). Claimed: the result is `md5_of(data)` and, as
/// the digest's output type fixes, 16 bytes long.
#[verifier::external_body]
fn md5_digest(data: &[u8]) -> (r: Vec<u8>)
    ensures
        r@ == md5_of(data@),
        r@.len() == 16,
{
    Md5::digest(data).to_vec()
}

/// What SHA-256 returns for `data`.
pub uninterp spec fn sha256_of(data: Seq<u8>) -> Seq<u8>;

/// What SHA-384 returns for `data`.
pub uninterp spec fn sha384_of(data: Seq<u8>) -> Seq<u8>;

/// What SHA-512 returns for `data`.
pub uninterp spec fn sha512_of(data: Seq<u8>) -> Seq<u8>;

/// `Sha256::digest(data)` (sha2). Claimed: the result is `sha256_of(data)`, 32 bytes.
#[verifier::external_body]
fn sha256_digest(data: &[u8]) -> (r: Vec<u8>)
    ensures
        r@ == sha256_of(data@),
        r@.len() == 32,
{
    Sha256::digest(data).to_vec()
}

/// `Sha384::digest(data)` (sha2). Claimed: the result is `sha384_of(data)`, 48 bytes.
#[verifier::external_body]
fn sha384_digest(data: &[u8]) -> (r: Vec<u8>)
    ensures
        r@ == sha384_of(data@),
        r@.len() == 48,
{
    Sha384::digest(data).to_vec()
}

/// `Sha512::digest(data)` (sha2). Claimed: the result is `sha512_of(data)`, 64 bytes.
#[verifier::external_body]
fn sha512_digest(data: &[u8]) -> (r: Vec<u8>)
    ensures
        r@ == sha512_of(data@),
        r@.len() == 64,
{
    Sha512::digest(data).to_vec()
}

/// What AES-128-CBC encryption without padding yields for `(key, iv, data)`.
pub uninterp spec fn aes128_cbc_raw_seal(key: Seq<u8>, iv: Seq<u8>, data: Seq<u8>) -> Option<Seq<u8>>;

/// `cbc::Encryptor::<Aes128>::new_from_slices(key, iv)` then
/// `encrypt_padded_vec_mut::<NoPadding>(data)` (cbc, aes). Claimed: the result
/// is `aes128_cbc_raw_seal(key, iv, data)`; it is absent exactly when the key or
/// IV is not 16 bytes (the constructor's length check), and otherwise as long as
/// `data`. `data` must be whole blocks: the unpadded encryption panics otherwise.
#[verifier::external_body]
fn aes128_cbc_encrypt_nopad(key: &[u8], iv: &[u8], data: &[u8]) -> (r: Option<Vec<u8>>)
    requires
        data@.len() % 16 == 0,
    ensures
        r matches Some(v) ==> aes128_cbc_raw_seal(key@, iv@, data@) == Some(v@) && v@.len() == data@.len(),
        r is None ==> aes128_cbc_raw_seal(key@, iv@, data@) is None,
        r is None <==> (key@.len() != 16 || iv@.len() != 16),
{
    let c = cbc::Encryptor::<aes::Aes128>::new_from_slices(key, iv).ok()?;
    Some(c.encrypt_padded_vec_mut::<NoPadding>(data))
}

/// What AES-256-CBC decryption without padding yields for `(key, iv, data)`.
pub uninterp spec fn aes256_cbc_raw_open(key: Seq<u8>, iv: Seq<u8>, data: Seq<u8>) -> Option<Seq<u8>>;

/// `cbc::Decryptor::<Aes256>::new_from_slices(key, iv)` then
/// `decrypt_padded_vec_mut::<NoPadding>(data)` (cbc, aes). Claimed: the result
/// is `aes256_cbc_raw_open(key, iv, data)`, absent exactly when the key is not
/// 32 bytes, the IV not 16 bytes, or `data` not whole 16-byte blocks, and
/// otherwise as long as `data`.
#[verifier::external_body]
fn aes256_cbc_decrypt_nopad(key: &[u8], iv: &[u8], data: &[u8]) -> (r: Option<Vec<u8>>)
    ensures
        r matches Some(v) ==> aes256_cbc_raw_open(key@, iv@, data@) == Some(v@) && v@.len() == data@.len(),
        r is None ==> aes256_cbc_raw_open(key@, iv@, data@) is None,
        r is None <==> (key@.len() != 32 || iv@.len() != 16 || data@.len() % 16 != 0),
{
    let c = cbc::Decryptor::<aes::Aes256>::new_from_slices(key, iv).ok()?;
    c.decrypt_padded_vec_mut::<NoPadding>(data).ok()
}

/// What AES-128-CBC decryption with PKCS#7 unpadding yields for `(key, iv, ct)`.
pub uninterp spec fn aes128_cbc_pkcs7_open(key: Seq<u8>, iv: Seq<u8>, ct: Seq<u8>) -> Option<Seq<u8>>;

/// What AES-256-CBC decryption with PKCS#7 unpadding yields for `(key, iv, ct)`.
pub uninterp spec fn aes256_cbc_pkcs7_open(key: Seq<u8>, iv: Seq<u8>, ct: Seq<u8>) -> Option<Seq<u8>>;

/// `cbc::Decryptor::<Aes128>::new_from_slices(key, iv)` then
/// `decrypt_padded_vec_mut::<Pkcs7>(ct)` (cbc, aes). Claimed: the result is
/// `aes128_cbc_pkcs7_open(key, iv, ct)`, and it is absent when the key or IV is
/// not 16 bytes or `ct` is not whole 16-byte blocks. Whether a well-sized
/// input unpads is left to the name.
#[verifier::external_body]
fn aes128_cbc_decrypt_pkcs7(key: &[u8], iv: &[u8], ct: &[u8]) -> (r: Option<Vec<u8>>)
    ensures
        r matches Some(v) ==> aes128_cbc_pkcs7_open(key@, iv@, ct@) == Some(v@),
        r is None ==> aes128_cbc_pkcs7_open(key@, iv@, ct@) is None,
        (key@.len() != 16 || iv@.len() != 16 || ct@.len() % 16 != 0) ==> r is None,
{
    let c = cbc::Decryptor::<aes::Aes128>::new_from_slices(key, iv).ok()?;
    c.decrypt_padded_vec_mut::<Pkcs7>(ct).ok()
}

/// `cbc::Decryptor::<Aes256>::new_from_slices(key, iv)` then
/// `decrypt_padded_vec_mut::<Pkcs7>(ct)` (cbc, aes). Claimed: the result is
/// `aes256_cbc_pkcs7_open(key, iv, ct)`, and it is absent when the key is not
/// 32 bytes, the IV not 16 bytes, or `ct` not whole 16-byte blocks. Whether a
/// well-sized input unpads is left to the name.
#[verifier::external_body]
fn aes256_cbc_decrypt_pkcs7(key: &[u8], iv: &[u8], ct: &[u8]) -> (r: Option<Vec<u8>>)
    ensures
        r matches Some(v) ==> aes256_cbc_pkcs7_open(key@, iv@, ct@) == Some(v@),
        r is None ==> aes256_cbc_pkcs7_open(key@, iv@, ct@) is None,
        (key@.len() != 32 || iv@.len() != 16 || ct@.len() % 16 != 0) ==> r is None,
{
    let c = cbc::Decryptor::<aes::Aes256>::new_from_slices(key, iv).ok()?;
    c.decrypt_padded_vec_mut::<Pkcs7>(ct).ok()
}

} // verus!

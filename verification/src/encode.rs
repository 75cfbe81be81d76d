//! Dependency-free byte encoders for image output.
//!
//! [`base64_encode`] produces data-URL text and [`png_encode`] wraps raw
//! component samples as a PNG. The PNG uses uncompressed ("stored") DEFLATE
//! blocks via [`zlib_stored`]: only the block framing, an Adler-32 trailer and
//! a CRC-32 per chunk are needed.

use vstd::prelude::*;
use vstd::string::StringExecFns;

verus! {

/// The RFC 4648 base64 alphabet (`+` and `/` for the last two digits).
pub open spec fn b64_alphabet() -> Seq<char> {
    seq![
        'A', 'B', 'C', 'D', 'E', 'F', 'G', 'H', 'I', 'J', 'K', 'L', 'M',
        'N', 'O', 'P', 'Q', 'R', 'S', 'T', 'U', 'V', 'W', 'X', 'Y', 'Z',
        'a', 'b', 'c', 'd', 'e', 'f', 'g', 'h', 'i', 'j', 'k', 'l', 'm',
        'n', 'o', 'p', 'q', 'r', 's', 't', 'u', 'v', 'w', 'x', 'y', 'z',
        '0', '1', '2', '3', '4', '5', '6', '7', '8', '9', '+', '/',
    ]
}

/// The base64 digit for a 6-bit value.
#[verifier::opaque]
pub open spec fn b64_digit(v: int) -> char {
    b64_alphabet()[v]
}

/// Base64 text of `s`: each 3-byte group becomes four digits; a trailing group
/// of one or two bytes is zero-extended and padded with `=`.
pub open spec fn base64_spec(s: Seq<u8>) -> Seq<char>
    decreases s.len(),
{
    if s.len() >= 3 {
        seq![
            b64_digit(s[0] as int / 4),
            b64_digit((s[0] % 4) * 16 + s[1] / 16),
            b64_digit((s[1] % 16) * 4 + s[2] / 64),
            b64_digit(s[2] as int % 64),
        ] + base64_spec(s.subrange(3, s.len() as int))
    } else if s.len() == 2 {
        seq![
            b64_digit(s[0] as int / 4),
            b64_digit((s[0] % 4) * 16 + s[1] / 16),
            b64_digit((s[1] % 16) * 4),
            '=',
        ]
    } else if s.len() == 1 {
        seq![b64_digit(s[0] as int / 4), b64_digit((s[0] % 4) * 16), '=', '=']
    } else {
        seq![]
    }
}

/// Base64 output is four characters per started 3-byte group.
pub proof fn lemma_base64_len(s: Seq<u8>)
    ensures
        base64_spec(s).len() == 4 * ((s.len() + 2) / 3),
    decreases s.len(),
{
    if s.len() >= 3 {
        lemma_base64_len(s.subrange(3, s.len() as int));
    }
}

/// The 6-bit value of a base64 alphabet character.
pub open spec fn b64_value(c: char) -> Option<int> {
    if 'A' <= c <= 'Z' {
        Some(c as int - 'A' as int)
    } else if 'a' <= c <= 'z' {
        Some(c as int - 'a' as int + 26)
    } else if '0' <= c <= '9' {
        Some(c as int - '0' as int + 52)
    } else if c == '+' {
        Some(62)
    } else if c == '/' {
        Some(63)
    } else {
        None
    }
}

/// Standard (RFC 4648) base64 decoding: groups of four alphabet characters,
/// `=` allowed only as the final one or two characters of the text; `None` for
/// anything else.
pub open spec fn base64_decode_spec(t: Seq<char>) -> Option<Seq<u8>>
    decreases t.len(),
{
    if t.len() == 0 {
        Some(seq![])
    } else if t.len() < 4 {
        None
    } else {
        let rest = t.subrange(4, t.len() as int);
        match (b64_value(t[0]), b64_value(t[1])) {
            (Some(v0), Some(v1)) => {
                let b0 = (v0 * 4 + v1 / 16) as u8;
                if rest.len() == 0 && t[2] == '=' && t[3] == '=' {
                    Some(seq![b0])
                } else {
                    match b64_value(t[2]) {
                        Some(v2) => {
                            let b1 = ((v1 % 16) * 16 + v2 / 4) as u8;
                            if rest.len() == 0 && t[3] == '=' {
                                Some(seq![b0, b1])
                            } else {
                                match b64_value(t[3]) {
                                    Some(v3) => {
                                        let b2 = ((v2 % 4) * 64 + v3) as u8;
                                        match base64_decode_spec(rest) {
                                            Some(r) => Some(seq![b0, b1, b2] + r),
                                            None => None,
                                        }
                                    },
                                    None => None,
                                }
                            }
                        },
                        None => None,
                    }
                }
            },
            _ => None,
        }
    }
}

/// Each digit reads back as its value.
proof fn lemma_b64_digit_value(v: int)
    requires
        0 <= v < 64,
    ensures
        b64_value(b64_digit(v)) == Some(v),
        b64_digit(v) != '=',
        b64_alphabet().contains(b64_digit(v)),
{
    reveal(b64_digit);
    if v == 0 {
        assert(b64_alphabet()[0] == b64_alphabet()[v]);
    } else if v == 1 {
        assert(b64_alphabet()[1] == b64_alphabet()[v]);
    } else if v == 2 {
        assert(b64_alphabet()[2] == b64_alphabet()[v]);
    } else if v == 3 {
        assert(b64_alphabet()[3] == b64_alphabet()[v]);
    } else if v == 4 {
        assert(b64_alphabet()[4] == b64_alphabet()[v]);
    } else if v == 5 {
        assert(b64_alphabet()[5] == b64_alphabet()[v]);
    } else if v == 6 {
        assert(b64_alphabet()[6] == b64_alphabet()[v]);
    } else if v == 7 {
        assert(b64_alphabet()[7] == b64_alphabet()[v]);
    } else if v == 8 {
        assert(b64_alphabet()[8] == b64_alphabet()[v]);
    } else if v == 9 {
        assert(b64_alphabet()[9] == b64_alphabet()[v]);
    } else if v == 10 {
        assert(b64_alphabet()[10] == b64_alphabet()[v]);
    } else if v == 11 {
        assert(b64_alphabet()[11] == b64_alphabet()[v]);
    } else if v == 12 {
        assert(b64_alphabet()[12] == b64_alphabet()[v]);
    } else if v == 13 {
        assert(b64_alphabet()[13] == b64_alphabet()[v]);
    } else if v == 14 {
        assert(b64_alphabet()[14] == b64_alphabet()[v]);
    } else if v == 15 {
        assert(b64_alphabet()[15] == b64_alphabet()[v]);
    } else if v == 16 {
        assert(b64_alphabet()[16] == b64_alphabet()[v]);
    } else if v == 17 {
        assert(b64_alphabet()[17] == b64_alphabet()[v]);
    } else if v == 18 {
        assert(b64_alphabet()[18] == b64_alphabet()[v]);
    } else if v == 19 {
        assert(b64_alphabet()[19] == b64_alphabet()[v]);
    } else if v == 20 {
        assert(b64_alphabet()[20] == b64_alphabet()[v]);
    } else if v == 21 {
        assert(b64_alphabet()[21] == b64_alphabet()[v]);
    } else if v == 22 {
        assert(b64_alphabet()[22] == b64_alphabet()[v]);
    } else if v == 23 {
        assert(b64_alphabet()[23] == b64_alphabet()[v]);
    } else if v == 24 {
        assert(b64_alphabet()[24] == b64_alphabet()[v]);
    } else if v == 25 {
        assert(b64_alphabet()[25] == b64_alphabet()[v]);
    } else if v == 26 {
        assert(b64_alphabet()[26] == b64_alphabet()[v]);
    } else if v == 27 {
        assert(b64_alphabet()[27] == b64_alphabet()[v]);
    } else if v == 28 {
        assert(b64_alphabet()[28] == b64_alphabet()[v]);
    } else if v == 29 {
        assert(b64_alphabet()[29] == b64_alphabet()[v]);
    } else if v == 30 {
        assert(b64_alphabet()[30] == b64_alphabet()[v]);
    } else if v == 31 {
        assert(b64_alphabet()[31] == b64_alphabet()[v]);
    } else if v == 32 {
        assert(b64_alphabet()[32] == b64_alphabet()[v]);
    } else if v == 33 {
        assert(b64_alphabet()[33] == b64_alphabet()[v]);
    } else if v == 34 {
        assert(b64_alphabet()[34] == b64_alphabet()[v]);
    } else if v == 35 {
        assert(b64_alphabet()[35] == b64_alphabet()[v]);
    } else if v == 36 {
        assert(b64_alphabet()[36] == b64_alphabet()[v]);
    } else if v == 37 {
        assert(b64_alphabet()[37] == b64_alphabet()[v]);
    } else if v == 38 {
        assert(b64_alphabet()[38] == b64_alphabet()[v]);
    } else if v == 39 {
        assert(b64_alphabet()[39] == b64_alphabet()[v]);
    } else if v == 40 {
        assert(b64_alphabet()[40] == b64_alphabet()[v]);
    } else if v == 41 {
        assert(b64_alphabet()[41] == b64_alphabet()[v]);
    } else if v == 42 {
        assert(b64_alphabet()[42] == b64_alphabet()[v]);
    } else if v == 43 {
        assert(b64_alphabet()[43] == b64_alphabet()[v]);
    } else if v == 44 {
        assert(b64_alphabet()[44] == b64_alphabet()[v]);
    } else if v == 45 {
        assert(b64_alphabet()[45] == b64_alphabet()[v]);
    } else if v == 46 {
        assert(b64_alphabet()[46] == b64_alphabet()[v]);
    } else if v == 47 {
        assert(b64_alphabet()[47] == b64_alphabet()[v]);
    } else if v == 48 {
        assert(b64_alphabet()[48] == b64_alphabet()[v]);
    } else if v == 49 {
        assert(b64_alphabet()[49] == b64_alphabet()[v]);
    } else if v == 50 {
        assert(b64_alphabet()[50] == b64_alphabet()[v]);
    } else if v == 51 {
        assert(b64_alphabet()[51] == b64_alphabet()[v]);
    } else if v == 52 {
        assert(b64_alphabet()[52] == b64_alphabet()[v]);
    } else if v == 53 {
        assert(b64_alphabet()[53] == b64_alphabet()[v]);
    } else if v == 54 {
        assert(b64_alphabet()[54] == b64_alphabet()[v]);
    } else if v == 55 {
        assert(b64_alphabet()[55] == b64_alphabet()[v]);
    } else if v == 56 {
        assert(b64_alphabet()[56] == b64_alphabet()[v]);
    } else if v == 57 {
        assert(b64_alphabet()[57] == b64_alphabet()[v]);
    } else if v == 58 {
        assert(b64_alphabet()[58] == b64_alphabet()[v]);
    } else if v == 59 {
        assert(b64_alphabet()[59] == b64_alphabet()[v]);
    } else if v == 60 {
        assert(b64_alphabet()[60] == b64_alphabet()[v]);
    } else if v == 61 {
        assert(b64_alphabet()[61] == b64_alphabet()[v]);
    } else if v == 62 {
        assert(b64_alphabet()[62] == b64_alphabet()[v]);
    } else if v == 63 {
        assert(b64_alphabet()[63] == b64_alphabet()[v]);
    }
}

/// The digits of one 3-byte group read back as its bytes.
proof fn lemma_b64_group(a: u8, b: u8, c: u8)
    ensures
        (a as int / 4 * 4 + ((a % 4) * 16 + b / 16) / 16) as u8 == a,
        ((((a % 4) * 16 + b / 16) % 16) * 16 + ((b % 16) * 4 + c / 64) / 4) as u8 == b,
        ((((b % 16) * 4 + c / 64) % 4) * 64 + c as int % 64) as u8 == c,
        0 <= a as int / 4 < 64,
        0 <= (a % 4) * 16 + b / 16 < 64,
        0 <= (b % 16) * 4 + c / 64 < 64,
        0 <= c as int % 64 < 64,
        0 <= (a % 4) * 16 < 64,
        0 <= (b % 16) * 4 < 64,
{
    assert((a as int / 4 * 4 + ((a % 4) * 16 + b / 16) / 16) == a) by (nonlinear_arith);
    assert(((((a % 4) * 16 + b / 16) % 16) * 16 + ((b % 16) * 4 + c / 64) / 4) == b) by (nonlinear_arith);
    assert(((((b % 16) * 4 + c / 64) % 4) * 64 + c as int % 64) == c) by (nonlinear_arith);
}

/// `=` is not a base64 digit.
proof fn lemma_pad_not_digit()
    ensures
        !b64_alphabet().contains('='),
{
    if b64_alphabet().contains('=') {
        let k = choose|k: int| 0 <= k < b64_alphabet().len() && b64_alphabet()[k] == '=';
        lemma_b64_digit_value(k);
        reveal(b64_digit);
    }
}

/// The four digits of the group starting `s` (zero-extended).
pub open spec fn group_digits(s: Seq<u8>) -> (int, int, int, int) {
    let a = s[0];
    let b: u8 = if s.len() >= 2 { s[1] } else { 0 };
    let c: u8 = if s.len() >= 3 { s[2] } else { 0 };
    (a as int / 4, (a % 4) * 16 + b / 16, (b % 16) * 4 + c / 64, c as int % 64)
}

/// Base64 text holds only alphabet characters, then `=` as its last
/// `(3 − n mod 3) mod 3` characters.
proof fn lemma_base64_chars(s: Seq<u8>)
    ensures
        ({
            let t = base64_spec(s);
            let pad = (3 - s.len() % 3) % 3;
            &&& forall|i: int| 0 <= i < t.len() - pad ==> #[trigger] b64_alphabet().contains(t[i])
            &&& forall|i: int| t.len() - pad <= i < t.len() ==> #[trigger] t[i] == '='
        }),
    decreases s.len(),
{
    let t = base64_spec(s);
    lemma_base64_len(s);
    if s.len() == 0 {
        return;
    }
    let a = s[0];
    let b: u8 = if s.len() >= 2 { s[1] } else { 0 };
    let c: u8 = if s.len() >= 3 { s[2] } else { 0 };
    lemma_b64_group(a, b, c);
    lemma_b64_digit_value(a as int / 4);
    lemma_b64_digit_value((a % 4) * 16 + b / 16);
    lemma_b64_digit_value((b % 16) * 4 + c / 64);
    lemma_b64_digit_value(c as int % 64);
    lemma_b64_digit_value((a % 4) * 16);
    lemma_b64_digit_value((b % 16) * 4);
    if s.len() >= 3 {
        let rest = s.subrange(3, s.len() as int);
        lemma_base64_chars(rest);
        lemma_base64_len(rest);
        let tr = base64_spec(rest);
        assert(rest.len() % 3 == s.len() % 3);
        assert forall|i: int| 0 <= i < t.len() - (3 - s.len() % 3) % 3 implies #[trigger] b64_alphabet().contains(t[i]) by {
            if i >= 4 {
                assert(t[i] == tr[i - 4]);
            }
        }
        assert forall|i: int| t.len() - (3 - s.len() % 3) % 3 <= i < t.len() implies #[trigger] t[i] == '=' by {
            assert(t[i] == tr[i - 4]);
        }
    }
}

/// A full group of four digits decodes to its three bytes, then the rest.
#[verifier::spinoff_prover]
proof fn lemma_decode_full_group(a: u8, b: u8, c: u8, tr: Seq<char>)
    ensures
        base64_decode_spec(
            seq![
                b64_digit(a as int / 4),
                b64_digit((a % 4) * 16 + b / 16),
                b64_digit((b % 16) * 4 + c / 64),
                b64_digit(c as int % 64),
            ] + tr,
        ) == match base64_decode_spec(tr) {
            Some(r) => Some(seq![a, b, c] + r),
            None => None::<Seq<u8>>,
        },
{
    let t = seq![
        b64_digit(a as int / 4),
        b64_digit((a % 4) * 16 + b / 16),
        b64_digit((b % 16) * 4 + c / 64),
        b64_digit(c as int % 64),
    ] + tr;
    lemma_b64_group(a, b, c);
    lemma_b64_digit_value(a as int / 4);
    lemma_b64_digit_value((a % 4) * 16 + b / 16);
    lemma_b64_digit_value((b % 16) * 4 + c / 64);
    lemma_b64_digit_value(c as int % 64);
    assert(t.subrange(4, t.len() as int) =~= tr);
}

/// Standard base64 decoding of the text gives the input back.
proof fn lemma_base64_decodes(s: Seq<u8>)
    ensures
        base64_decode_spec(base64_spec(s)) == Some(s),
    decreases s.len(),
{
    if s.len() == 0 {
        return;
    }
    let a = s[0];
    let b: u8 = if s.len() >= 2 { s[1] } else { 0 };
    let c: u8 = if s.len() >= 3 { s[2] } else { 0 };
    lemma_b64_group(a, b, c);
    if s.len() >= 3 {
        let rest = s.subrange(3, s.len() as int);
        lemma_base64_decodes(rest);
        lemma_decode_full_group(a, b, c, base64_spec(rest));
        assert(seq![a, b, c] + rest =~= s);
    } else {
        let t = base64_spec(s);
        lemma_b64_digit_value(a as int / 4);
        lemma_b64_digit_value((a % 4) * 16 + b / 16);
        lemma_b64_digit_value((a % 4) * 16);
        lemma_b64_digit_value((b % 16) * 4);
        assert(t.subrange(4, t.len() as int).len() == 0);
        if s.len() == 2 {
            assert(s =~= seq![a, b]);
        } else {
            assert(s =~= seq![a]);
        }
    }
}

/// Base64 text holds only alphabet characters, then `=` exactly as its last
/// `(3 − n mod 3) mod 3` characters, and standard base64 decoding gives the
/// input back.
pub proof fn lemma_base64_round_trip(s: Seq<u8>)
    ensures
        ({
            let t = base64_spec(s);
            let pad = (3 - s.len() % 3) % 3;
            &&& forall|i: int| 0 <= i < t.len() - pad ==> #[trigger] b64_alphabet().contains(t[i])
            &&& forall|i: int| t.len() - pad <= i < t.len() ==> #[trigger] t[i] == '='
            &&& !b64_alphabet().contains('=')
        }),
        base64_decode_spec(base64_spec(s)) == Some(s),
{
    lemma_base64_chars(s);
    lemma_pad_not_digit();
    lemma_base64_decodes(s);
}

/// Appends the base64 digit for `v` to `out`.
fn push_digit(out: &mut String, v: u8)
    requires
        v < 64,
    ensures
        final(out)@ == old(out)@.push(b64_digit(v as int)),
{
    let alpha = "ABCDEFGHIJKLMNOPQRSTUVWXYZabcdefghijklmnopqrstuvwxyz0123456789+/";
    proof {
        reveal_strlit("ABCDEFGHIJKLMNOPQRSTUVWXYZabcdefghijklmnopqrstuvwxyz0123456789+/");
        assert(alpha@ =~= b64_alphabet());
        assert(alpha.is_ascii());
    }
    let k = v as usize;
    let piece = alpha.substring_ascii(k, k + 1);
    out.append(piece);
    proof {
        reveal(b64_digit);
        assert(piece@ =~= seq![b64_digit(v as int)]);
    }
}

/// Standard base64 (RFC 4648) with `+`/`/` and `=` padding.
pub fn base64_encode(input: &[u8]) -> (r: String)
    ensures
        r@ == base64_spec(input@),
        r@.len() == 4 * ((input@.len() + 2) / 3),
{
    proof {
        lemma_base64_len(input@);
    }
    let mut out = String::new();
    let n = input.len();
    let mut i: usize = 0;
    assert(input@.subrange(0, n as int) =~= input@);
    assert(out@ + base64_spec(input@) =~= base64_spec(input@));
    while n - i >= 3
        invariant
            n == input@.len(),
            i <= n,
            base64_spec(input@) == out@ + base64_spec(input@.subrange(i as int, n as int)),
        decreases n - i,
    {
        let rest = Ghost(input@.subrange(i as int, n as int));
        assert(rest@.subrange(3, rest@.len() as int) =~= input@.subrange(i + 3, n as int));
        let a = input[i];
        let b = input[i + 1];
        let c = input[i + 2];
        let ghost before = out@;
        push_digit(&mut out, a / 4);
        push_digit(&mut out, (a % 4) * 16 + b / 16);
        push_digit(&mut out, (b % 16) * 4 + c / 64);
        push_digit(&mut out, c % 64);
        assert(out@ =~= before + seq![
            b64_digit(a as int / 4),
            b64_digit((a % 4) * 16 + b / 16),
            b64_digit((b % 16) * 4 + c / 64),
            b64_digit(c as int % 64),
        ]);
        i += 3;
    }
    let rem = n - i;
    let ghost before = out@;
    if rem == 1 {
        let a = input[i];
        push_digit(&mut out, a / 4);
        push_digit(&mut out, (a % 4) * 16);
        proof {
            reveal_strlit("==");
        }
        out.append("==");
        assert(out@ =~= before + base64_spec(input@.subrange(i as int, n as int)));
    } else if rem == 2 {
        let a = input[i];
        let b = input[i + 1];
        push_digit(&mut out, a / 4);
        push_digit(&mut out, (a % 4) * 16 + b / 16);
        push_digit(&mut out, (b % 16) * 4);
        proof {
            reveal_strlit("=");
        }
        out.append("=");
        assert(out@ =~= before + base64_spec(input@.subrange(i as int, n as int)));
    } else {
        assert(out@ =~= before + base64_spec(input@.subrange(i as int, n as int)));
    }
    out
}

// ---------------------------------------------------------------- CRC-32

/// One shift of the reflected CRC-32 register (polynomial 0xEDB88320).
pub open spec fn crc_shift(c: u32) -> u32 {
    if c & 1 != 0 {
        0xEDB8_8320u32 ^ (c >> 1u32)
    } else {
        c >> 1u32
    }
}

/// `k` shifts of the CRC register.
pub open spec fn crc_rounds(c: u32, k: nat) -> u32
    decreases k,
{
    if k == 0 {
        c
    } else {
        crc_shift(crc_rounds(c, (k - 1) as nat))
    }
}

/// The register after absorbing one byte.
pub open spec fn crc_byte(c: u32, b: u8) -> u32 {
    crc_rounds(c ^ (b as u32), 8)
}

/// The register after absorbing `data` from `state`, byte by byte.
pub open spec fn crc_update(state: u32, data: Seq<u8>) -> u32
    decreases data.len(),
{
    if data.len() == 0 {
        state
    } else {
        crc_byte(crc_update(state, data.drop_last()), data.last())
    }
}

/// CRC-32 of `data`: initial register all ones, final value inverted.
pub open spec fn crc32_spec(data: Seq<u8>) -> u32 {
    crc_update(0xFFFF_FFFFu32, data) ^ 0xFFFF_FFFFu32
}

/// Absorbing `a` then `b` is absorbing `a + b`: a CRC may be continued
/// over a message delivered in pieces.
pub proof fn lemma_crc_update_concat(state: u32, a: Seq<u8>, b: Seq<u8>)
    ensures
        crc_update(state, a + b) == crc_update(crc_update(state, a), b),
    decreases b.len(),
{
    if b.len() == 0 {
        assert(a + b =~= a);
    } else {
        assert((a + b).drop_last() =~= a + b.drop_last());
        assert((a + b).last() == b.last());
        lemma_crc_update_concat(state, a, b.drop_last());
    }
}

/// CRC-32 (PNG/zlib polynomial 0xEDB88320) over one slice.
pub fn crc32(data: &[u8]) -> (r: u32)
    ensures
        r == crc32_spec(data@),
{
    crc32_continue(0xFFFF_FFFF, data) ^ 0xFFFF_FFFF
}

/// Continue a CRC-32 from an existing register state.
pub fn crc32_continue(state: u32, data: &[u8]) -> (r: u32)
    ensures
        r == crc_update(state, data@),
{
    let mut c = state;
    let n = data.len();
    let mut i: usize = 0;
    while i < n
        invariant
            n == data@.len(),
            i <= n,
            c == crc_update(state, data@.subrange(0, i as int)),
        decreases n - i,
    {
        assert(data@.subrange(0, i + 1).drop_last() =~= data@.subrange(0, i as int));
        let start = c ^ (data[i] as u32);
        c = start;
        let mut j: usize = 0;
        while j < 8
            invariant
                j <= 8,
                c == crc_rounds(start, j as nat),
            decreases 8 - j,
        {
            c = if c & 1 != 0 {
                0xEDB8_8320 ^ (c >> 1)
            } else {
                c >> 1
            };
            j += 1;
        }
        i += 1;
    }
    assert(data@.subrange(0, n as int) =~= data@);
    c
}

// ---------------------------------------------------------------- Adler-32

/// The two Adler-32 running sums `(a, b)` after `data`.
pub open spec fn adler_sums(data: Seq<u8>) -> (int, int)
    decreases data.len(),
{
    if data.len() == 0 {
        (1, 0)
    } else {
        let (a, b) = adler_sums(data.drop_last());
        let a2 = (a + data.last()) % 65521;
        (a2, (b + a2) % 65521)
    }
}

/// Adler-32 of `data`: `b * 65536 + a`.
pub open spec fn adler32_spec(data: Seq<u8>) -> u32 {
    (adler_sums(data).1 * 65536 + adler_sums(data).0) as u32
}

/// Adler-32 over `data` (the zlib trailer).
pub fn adler32(data: &[u8]) -> (r: u32)
    ensures
        r == adler32_spec(data@),
        r as int == adler_sums(data@).1 * 65536 + adler_sums(data@).0,
{
    let mut a: u32 = 1;
    let mut b: u32 = 0;
    let n = data.len();
    let mut i: usize = 0;
    while i < n
        invariant
            n == data@.len(),
            i <= n,
            a < 65521,
            b < 65521,
            (a as int, b as int) == adler_sums(data@.subrange(0, i as int)),
        decreases n - i,
    {
        assert(data@.subrange(0, i + 1).drop_last() =~= data@.subrange(0, i as int));
        a = (a + data[i] as u32) % 65521;
        b = (b + a) % 65521;
        i += 1;
    }
    assert(data@.subrange(0, n as int) =~= data@);
    assert((b << 16u32) | a == b * 65536 + a) by (bit_vector)
        requires
            a < 65536,
            b < 65536,
    ;
    (b << 16) | a
}

// ---------------------------------------------------------------- stored DEFLATE

/// Appends `src` to `out`.
pub fn extend_bytes(out: &mut Vec<u8>, src: &[u8])
    ensures
        final(out)@ == old(out)@ + src@,
{
    let n = src.len();
    let mut i: usize = 0;
    while i < n
        invariant
            n == src@.len(),
            i <= n,
            out@ == old(out)@ + src@.subrange(0, i as int),
        decreases n - i,
    {
        out.push(src[i]);
        assert(src@.subrange(0, i + 1) =~= src@.subrange(0, i as int).push(src@[i as int]));
        i += 1;
    }
    assert(src@.subrange(0, n as int) =~= src@);
}

/// The five framing bytes of one stored block: BFINAL/BTYPE, then LEN and its
/// one's complement NLEN, both little-endian.
pub open spec fn stored_header(last: bool, len: int) -> Seq<u8> {
    seq![
        if last { 1u8 } else { 0u8 },
        (len % 256) as u8,
        (len / 256) as u8,
        ((65535 - len) % 256) as u8,
        ((65535 - len) / 256) as u8,
    ]
}

/// `data` as raw DEFLATE stored blocks of at most 65535 bytes; the last block
/// is marked final, and empty input is one empty final block.
pub open spec fn stored_blocks(data: Seq<u8>) -> Seq<u8>
    decreases data.len(),
{
    if data.len() <= 65535 {
        stored_header(true, data.len() as int) + data
    } else {
        stored_header(false, 65535) + data.subrange(0, 65535) + stored_blocks(
            data.subrange(65535, data.len() as int),
        )
    }
}

/// Appends the framing of one stored block holding `chunk` bytes.
fn push_stored_header(out: &mut Vec<u8>, last: bool, chunk: usize)
    requires
        chunk <= 65535,
    ensures
        final(out)@ == old(out)@ + stored_header(last, chunk as int),
{
    out.push(if last { 1 } else { 0 });
    out.push((chunk & 0xff) as u8);
    out.push((chunk >> 8) as u8);
    let nlen = !(chunk as u16);
    out.push((nlen & 0xff) as u8);
    out.push((nlen >> 8) as u8);
    assert((chunk & 0xff) as u8 == (chunk % 256) as u8 && (chunk >> 8) as u8 == (chunk / 256) as u8
        && (!(chunk as u16) & 0xff) as u8 == ((65535 - chunk) % 256) as u8
        && (!(chunk as u16) >> 8) as u8 == ((65535 - chunk) / 256) as u8) by (bit_vector)
        requires
            chunk <= 65535,
    ;
    assert(final(out)@ =~= old(out)@ + stored_header(last, chunk as int)) by {
        assert(out@.len() == old(out)@.len() + 5);
    }
}

/// Raw DEFLATE stored blocks: BFINAL + LEN + NLEN + bytes (max 65535 per block).
pub fn deflate_stored(data: &[u8]) -> (r: Vec<u8>)
    ensures
        r@ == stored_blocks(data@),
{
    let mut out: Vec<u8> = Vec::new();
    let n = data.len();
    let mut pos: usize = 0;
    assert(data@.subrange(0, n as int) =~= data@);
    assert(out@ + stored_blocks(data@) =~= stored_blocks(data@));
    while pos < n
        invariant
            n == data@.len(),
            pos <= n,
            pos < n ==> stored_blocks(data@) == out@ + stored_blocks(data@.subrange(pos as int, n as int)),
            pos == 0 ==> out@.len() == 0,
            pos == n && n > 0 ==> out@ == stored_blocks(data@),
        decreases n - pos,
    {
        let rest = Ghost(data@.subrange(pos as int, n as int));
        let chunk = if n - pos < 65535 { n - pos } else { 65535 };
        let last = pos + chunk == n;
        push_stored_header(&mut out, last, chunk);
        extend_bytes(&mut out, &data[pos..pos + chunk]);
        assert(rest@.subrange(0, chunk as int) =~= data@.subrange(pos as int, pos + chunk));
        if !last {
            assert(rest@.subrange(65535, rest@.len() as int) =~= data@.subrange(pos + chunk, n as int));
        } else {
            assert(rest@ =~= data@.subrange(pos as int, pos + chunk));
        }
        pos += chunk;
    }
    if n == 0 {
        push_stored_header(&mut out, true, 0);
        assert(out@ =~= stored_blocks(data@));
    }
    out
}

/// The big-endian bytes of a 32-bit value.
pub open spec fn be32(x: u32) -> Seq<u8> {
    seq![
        (x / 0x100_0000) as u8,
        ((x / 0x1_0000) % 256) as u8,
        ((x / 256) % 256) as u8,
        (x % 256) as u8,
    ]
}

/// Appends `x` in big-endian byte order.
pub fn push_be32(out: &mut Vec<u8>, x: u32)
    ensures
        final(out)@ == old(out)@ + be32(x),
{
    out.push((x >> 24) as u8);
    out.push((x >> 16) as u8);
    out.push((x >> 8) as u8);
    out.push(x as u8);
    assert((x >> 24u32) as u8 == (x / 0x100_0000) as u8 && (x >> 16u32) as u8 == ((x / 0x1_0000)
        % 256) as u8 && (x >> 8u32) as u8 == ((x / 256) % 256) as u8 && x as u8 == (x % 256) as u8)
        by (bit_vector);
    assert(final(out)@ =~= old(out)@ + be32(x)) by {
        assert(out@.len() == old(out)@.len() + 4);
    }
}

/// A zlib stream wrapping `data`: header `78 01`, stored blocks, Adler-32.
pub open spec fn zlib_stored_spec(data: Seq<u8>) -> Seq<u8> {
    seq![0x78u8, 0x01u8] + stored_blocks(data) + be32(adler32_spec(data))
}

/// A zlib stream wrapping `data` as stored DEFLATE: header + blocks + Adler-32.
pub fn zlib_stored(data: &[u8]) -> (r: Vec<u8>)
    ensures
        r@ == zlib_stored_spec(data@),
{
    let mut out: Vec<u8> = Vec::new();
    out.push(0x78);
    out.push(0x01);
    let blocks = deflate_stored(data);
    extend_bytes(&mut out, blocks.as_slice());
    let a = adler32(data);
    push_be32(&mut out, a);
    assert(out@ =~= zlib_stored_spec(data@));
    out
}

// ---------------------------------------------------------------- PNG

/// The eight-byte PNG file signature.
pub const PNG_SIG: [u8; 8] = [0x89, 0x50, 0x4e, 0x47, 0x0d, 0x0a, 0x1a, 0x0a];

/// The PNG signature as a byte sequence.
pub open spec fn png_signature() -> Seq<u8> {
    seq![0x89u8, 0x50u8, 0x4eu8, 0x47u8, 0x0du8, 0x0au8, 0x1au8, 0x0au8]
}

/// Chunk type `IHDR`.
pub open spec fn tag_ihdr() -> Seq<u8> {
    seq![0x49u8, 0x48u8, 0x44u8, 0x52u8]
}

/// Chunk type `IDAT`.
pub open spec fn tag_idat() -> Seq<u8> {
    seq![0x49u8, 0x44u8, 0x41u8, 0x54u8]
}

/// Chunk type `IEND`.
pub open spec fn tag_iend() -> Seq<u8> {
    seq![0x49u8, 0x45u8, 0x4eu8, 0x44u8]
}

/// Samples per pixel for the supported colour types: grey (0) and RGB (2).
pub open spec fn spp_spec(color_type: u8) -> Option<u32> {
    if color_type == 0 {
        Some(1u32)
    } else if color_type == 2 {
        Some(3u32)
    } else {
        None
    }
}

/// Bytes in one unfiltered row of `width` pixels.
pub open spec fn row_bytes_spec(width: u32, spp: u32, bit_depth: u8) -> int {
    (width * spp * bit_depth + 7) / 8
}

/// Each row of `rows` rows of `rb` bytes, preceded by filter type 0 (None).
pub open spec fn filtered_rows_spec(s: Seq<u8>, rows: nat, rb: nat) -> Seq<u8>
    decreases rows,
{
    if rows == 0 {
        seq![]
    } else {
        filtered_rows_spec(s, (rows - 1) as nat, rb) + seq![0u8] + s.subrange(
            (rows - 1) * rb,
            (rows * rb) as int,
        )
    }
}

/// The IHDR payload: width, height, depth, colour type, then compression,
/// filter and interlace method all 0.
pub open spec fn ihdr_spec(width: u32, height: u32, bit_depth: u8, color_type: u8) -> Seq<u8> {
    be32(width) + be32(height) + seq![bit_depth, color_type, 0u8, 0u8, 0u8]
}

/// One PNG chunk: length (as a 32-bit field), type, data, CRC-32 of type and data.
pub open spec fn png_chunk(ctype: Seq<u8>, data: Seq<u8>) -> Seq<u8> {
    be32(data.len() as u32) + ctype + data + be32(crc32_spec(ctype + data))
}

/// The PNG file for `samples`, already checked to fill the image exactly.
pub open spec fn png_spec(samples: Seq<u8>, width: u32, height: u32, bit_depth: u8, color_type: u8, rb: nat) -> Seq<u8> {
    png_signature() + png_chunk(tag_ihdr(), ihdr_spec(width, height, bit_depth, color_type))
        + png_chunk(tag_idat(), zlib_stored_spec(filtered_rows_spec(samples, height as nat, rb)))
        + png_chunk(tag_iend(), seq![])
}

/// Samples per pixel for a colour type, `None` when unsupported.
pub fn samples_per_pixel(color_type: u8) -> (r: Option<u32>)
    ensures
        r == spp_spec(color_type),
{
    match color_type {
        0 => Some(1),
        2 => Some(3),
        _ => None,
    }
}

/// Bytes in one unfiltered row (bits rounded up to whole bytes).
pub fn row_bytes(width: u32, spp: u32, bit_depth: u8) -> (r: u64)
    requires
        spp <= 3,
    ensures
        r == row_bytes_spec(width, spp, bit_depth),
        r <= 0x80_0000_0000,
{
    assert(width * spp * bit_depth <= 0xffff_ffff * 3 * 255) by (nonlinear_arith)
        requires
            spp <= 3,
            width <= 0xffff_ffff,
            bit_depth <= 255,
    ;
    assert(width * spp <= 0xffff_ffff * 3) by (nonlinear_arith)
        requires
            spp <= 3,
            width <= 0xffff_ffff,
    ;
    let ws: u64 = width as u64 * spp as u64;
    assert(ws * bit_depth <= 0xffff_ffff * 3 * 255) by (nonlinear_arith)
        requires
            ws == width * spp,
            spp <= 3,
            width <= 0xffff_ffff,
            bit_depth <= 255,
    ;
    let bits: u64 = ws * bit_depth as u64;
    (bits + 7) / 8
}

/// True when the image is non-empty and `samples` fills it exactly.
pub fn valid_png_input(samples: &[u8], width: u32, height: u32, spp: u32, bit_depth: u8) -> (r: bool)
    requires
        spp <= 3,
    ensures
        r == (width != 0 && height != 0 && samples@.len() == row_bytes_spec(width, spp, bit_depth)
            * height),
{
    if width == 0 || height == 0 {
        return false;
    }
    let rb = row_bytes(width, spp, bit_depth);
    assert(rb * height <= 0xffff_ffff_ffff * 0xffff_ffff) by (nonlinear_arith)
        requires
            rb <= 0xffff_ffff_ffff,
            height <= 0xffff_ffff,
    ;
    samples.len() as u128 == rb as u128 * height as u128
}

proof fn lemma_row_end(r: nat, rows: nat, rb: nat)
    requires
        r < rows,
    ensures
        r * rb + rb == (r + 1) * rb,
        (r + 1) * rb <= rows * rb,
{
    assert((r + 1) * rb <= rows * rb) by (nonlinear_arith)
        requires
            r + 1 <= rows,
    ;
    assert(r * rb + rb == (r + 1) * rb) by (nonlinear_arith);
}

/// Prefixes each of the `height` rows of `rbytes` bytes with filter type 0.
pub fn filtered_rows(samples: &[u8], height: usize, rbytes: usize) -> (r: Vec<u8>)
    requires
        samples@.len() == height * rbytes,
    ensures
        r@ == filtered_rows_spec(samples@, height as nat, rbytes as nat),
{
    let mut out: Vec<u8> = Vec::new();
    let n = samples.len();
    let mut pos: usize = 0;
    let mut row: usize = 0;
    while row < height
        invariant
            samples@.len() == height * rbytes,
            n == samples@.len(),
            row <= height,
            pos == row * rbytes,
            out@ == filtered_rows_spec(samples@, row as nat, rbytes as nat),
        decreases height - row,
    {
        proof {
            lemma_row_end(row as nat, height as nat, rbytes as nat);
        }
        out.push(0);
        extend_bytes(&mut out, &samples[pos..pos + rbytes]);
        pos += rbytes;
        row += 1;
    }
    out
}

/// The 13-byte IHDR payload.
pub fn ihdr_data(width: u32, height: u32, bit_depth: u8, color_type: u8) -> (r: Vec<u8>)
    ensures
        r@ == ihdr_spec(width, height, bit_depth, color_type),
{
    let mut d: Vec<u8> = Vec::new();
    push_be32(&mut d, width);
    push_be32(&mut d, height);
    d.push(bit_depth);
    d.push(color_type);
    d.push(0);
    d.push(0);
    d.push(0);
    assert(d@ =~= ihdr_spec(width, height, bit_depth, color_type));
    d
}

/// Appends one chunk: length, type, data and the CRC-32 of type and data.
pub fn push_chunk(out: &mut Vec<u8>, ctype: &[u8], data: &[u8])
    ensures
        final(out)@ == old(out)@ + png_chunk(ctype@, data@),
{
    push_be32(out, data.len() as u32);
    extend_bytes(out, ctype);
    extend_bytes(out, data);
    let crc = crc32_continue(crc32_continue(0xFFFF_FFFF, ctype), data) ^ 0xFFFF_FFFF;
    proof {
        lemma_crc_update_concat(0xFFFF_FFFFu32, ctype@, data@);
    }
    push_be32(out, crc);
    assert(final(out)@ =~= old(out)@ + png_chunk(ctype@, data@));
}

/// Encode raw component samples as a PNG. Returns `None` for an unsupported
/// colour type or when `samples` does not exactly fill `width` × `height`.
pub fn png_encode(samples: &[u8], width: u32, height: u32, bit_depth: u8, color_type: u8) -> (r:
    Option<Vec<u8>>)
    ensures
        match spp_spec(color_type) {
            None => r is None,
            Some(spp) => {
                let rb = row_bytes_spec(width, spp, bit_depth);
                if width != 0 && height != 0 && samples@.len() == rb * height {
                    r matches Some(png) && png@ == png_spec(
                        samples@,
                        width,
                        height,
                        bit_depth,
                        color_type,
                        rb as nat,
                    )
                } else {
                    r is None
                }
            },
        },
{
    let spp = match samples_per_pixel(color_type) {
        Some(v) => v,
        None => return None,
    };
    if !valid_png_input(samples, width, height, spp, bit_depth) {
        return None;
    }
    let rb64 = row_bytes(width, spp, bit_depth);
    let n = samples.len();
    assert(rb64 <= samples@.len()) by (nonlinear_arith)
        requires
            samples@.len() == rb64 * height,
            height >= 1,
    ;
    let rbytes = rb64 as usize;
    assert(samples@.len() == (height as usize) * rbytes) by (nonlinear_arith)
        requires
            samples@.len() == rb64 * height,
            rbytes == rb64,
    ;
    let mut out: Vec<u8> = Vec::new();
    let sig = PNG_SIG;
    extend_bytes(&mut out, sig.as_slice());
    assert(sig@ =~= png_signature());
    let t_ihdr: [u8; 4] = [0x49, 0x48, 0x44, 0x52];
    let t_idat: [u8; 4] = [0x49, 0x44, 0x41, 0x54];
    let t_iend: [u8; 4] = [0x49, 0x45, 0x4e, 0x44];
    assert(t_ihdr@ =~= tag_ihdr());
    assert(t_idat@ =~= tag_idat());
    assert(t_iend@ =~= tag_iend());
    let ihdr = ihdr_data(width, height, bit_depth, color_type);
    push_chunk(&mut out, t_ihdr.as_slice(), ihdr.as_slice());
    let rows = filtered_rows(samples, height as usize, rbytes);
    let idat = zlib_stored(rows.as_slice());
    push_chunk(&mut out, t_idat.as_slice(), idat.as_slice());
    let empty: [u8; 0] = [];
    push_chunk(&mut out, t_iend.as_slice(), empty.as_slice());
    assert(empty@ =~= Seq::<u8>::empty());
    assert(out@ =~= png_spec(samples@, width, height, bit_depth, color_type, rbytes as nat));
    Some(out)
}

} // verus!

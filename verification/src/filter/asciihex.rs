//! `ASCIIHexDecode`: hex digits → bytes, `>` ends the data.

use vstd::prelude::*;

use crate::cos::{hex_nibble, hex_val};
use crate::error::{ErrorCode, TurboParsePdfError};
use crate::lex::{is_whitespace, ws_byte};

verus! {

/// ASCII-hex decoding from index `i`: whitespace is ignored, an odd trailing
/// nibble is padded with zero, `>` (or the end of the data) terminates, and any
/// other non-hex byte is an error.
pub open spec fn ascii_hex_spec(data: Seq<u8>, i: int, acc: Seq<u8>, high: Option<u8>) -> Option<
    Seq<u8>,
>
    decreases data.len() - i,
{
    if i < 0 || i >= data.len() || data[i] == 0x3e {
        Some(
            match high {
                Some(h) => acc.push((h * 16) as u8),
                None => acc,
            },
        )
    } else if ws_byte(data[i]) {
        ascii_hex_spec(data, i + 1, acc, high)
    } else {
        match hex_nibble(data[i]) {
            None => None,
            Some(n) => match high {
                Some(h) => ascii_hex_spec(data, i + 1, acc.push((h * 16 + n) as u8), None),
                None => ascii_hex_spec(data, i + 1, acc, Some(n)),
            },
        }
    }
}

/// ASCII-hex decoding fails exactly when a byte before the first `>` is
/// neither whitespace nor a hex digit.
pub proof fn lemma_ascii_hex_fails_iff(data: Seq<u8>, i: int, acc: Seq<u8>, high: Option<u8>)
    requires
        0 <= i,
    ensures
        ascii_hex_spec(data, i, acc, high) is None <==> exists|j: int|
            i <= j < data.len() && data[j] != 0x3e && !ws_byte(#[trigger] data[j]) && hex_nibble(data[j]) is None
                && forall|k: int| i <= k < j ==> data[k] != 0x3e,
    decreases data.len() - i,
{
    if i >= data.len() || data[i] == 0x3e {
        if exists|j: int|
            i <= j < data.len() && data[j] != 0x3e && !ws_byte(#[trigger] data[j]) && hex_nibble(data[j]) is None
                && forall|k: int| i <= k < j ==> data[k] != 0x3e {
            let j = choose|j: int|
                i <= j < data.len() && data[j] != 0x3e && !ws_byte(#[trigger] data[j]) && hex_nibble(data[j]) is None
                    && forall|k: int| i <= k < j ==> data[k] != 0x3e;
            if j > i {
                assert(data[i] != 0x3e);
            }
        }
    } else if !ws_byte(data[i]) && hex_nibble(data[i]) is None {
        assert(!ws_byte(data[i]) && forall|k: int| i <= k < i ==> data[k] != 0x3e);
    } else {
        let (acc2, high2) = if ws_byte(data[i]) {
            (acc, high)
        } else {
            let n = hex_nibble(data[i])->0;
            match high {
                Some(h) => (acc.push((h * 16 + n) as u8), None),
                None => (acc, Some(n)),
            }
        };
        assert(ascii_hex_spec(data, i, acc, high) == ascii_hex_spec(data, i + 1, acc2, high2));
        lemma_ascii_hex_fails_iff(data, i + 1, acc2, high2);
        if exists|j: int|
            i <= j < data.len() && data[j] != 0x3e && !ws_byte(#[trigger] data[j]) && hex_nibble(data[j]) is None
                && forall|k: int| i <= k < j ==> data[k] != 0x3e {
            let j = choose|j: int|
                i <= j < data.len() && data[j] != 0x3e && !ws_byte(#[trigger] data[j]) && hex_nibble(data[j]) is None
                    && forall|k: int| i <= k < j ==> data[k] != 0x3e;
            assert(j != i);
            assert(i + 1 <= j < data.len() && data[j] != 0x3e && !ws_byte(data[j]) && hex_nibble(data[j]) is None
                && forall|k: int| i + 1 <= k < j ==> data[k] != 0x3e);
        }
        if exists|j: int|
            i + 1 <= j < data.len() && data[j] != 0x3e && !ws_byte(#[trigger] data[j]) && hex_nibble(data[j]) is None
                && forall|k: int| i + 1 <= k < j ==> data[k] != 0x3e {
            let j = choose|j: int|
                i + 1 <= j < data.len() && data[j] != 0x3e && !ws_byte(#[trigger] data[j]) && hex_nibble(data[j]) is None
                    && forall|k: int| i + 1 <= k < j ==> data[k] != 0x3e;
            assert(i <= j < data.len() && data[j] != 0x3e && !ws_byte(data[j]) && hex_nibble(data[j]) is None
                && forall|k: int| i <= k < j ==> data[k] != 0x3e);
        }
    }
}

/// Decode ASCII-hex data. Whitespace is ignored; an odd trailing nibble is
/// padded with zero; `>` terminates.
pub fn ascii_hex_decode(data: &[u8]) -> (r: Result<Vec<u8>, TurboParsePdfError>)
    ensures
        match ascii_hex_spec(data@, 0, Seq::empty(), None) {
            Some(v) => r matches Ok(out) && out@ == v,
            None => r matches Err(e) && e.code == ErrorCode::BadStream,
        },
{
    let mut out: Vec<u8> = Vec::new();
    let mut high: Option<u8> = None;
    let n = data.len();
    let mut i: usize = 0;
    while i < n
        invariant
            n == data@.len(),
            i <= n,
            high matches Some(h) ==> h < 16,
            ascii_hex_spec(data@, i as int, out@, high) == ascii_hex_spec(
                data@,
                0,
                Seq::empty(),
                None,
            ),
        decreases n - i,
    {
        let b = data[i];
        if b == 0x3e {
            match high {
                Some(h) => out.push(h * 16),
                None => {},
            }
            return Ok(out);
        }
        if !is_whitespace(b) {
            let nib = match hex_val(b) {
                None => return Err(TurboParsePdfError::new(ErrorCode::BadStream, "bad ASCIIHex data")),
                Some(v) => v,
            };
            match high {
                Some(h) => {
                    out.push(h * 16 + nib);
                    high = None;
                },
                None => {
                    high = Some(nib);
                },
            }
        }
        i = i + 1;
    }
    match high {
        Some(h) => out.push(h * 16),
        None => {},
    }
    Ok(out)
}

// ---------------------------------------------------------------- encoding round trip

/// The upper-case hexadecimal digit for a value below 16.
pub open spec fn hex_char(d: int) -> u8 {
    if d < 10 {
        (0x30 + d) as u8
    } else {
        (0x41 + d - 10) as u8
    }
}

/// ASCII-hex encoding: two upper-case digits per byte, high nibble first.
pub open spec fn ascii_hex_encode_spec(x: Seq<u8>) -> Seq<u8>
    decreases x.len(),
{
    if x.len() == 0 {
        seq![]
    } else {
        seq![hex_char((x[0] / 16) as int), hex_char((x[0] % 16) as int)] + ascii_hex_encode_spec(x.drop_first())
    }
}

proof fn lemma_hex_char(d: int)
    requires
        0 <= d < 16,
    ensures
        hex_nibble(hex_char(d)) == Some(d as u8),
        !ws_byte(hex_char(d)),
        hex_char(d) != 0x3e,
{
}

proof fn lemma_ascii_hex_decodes(pre: Seq<u8>, x: Seq<u8>, acc: Seq<u8>)
    ensures
        ascii_hex_spec(pre + ascii_hex_encode_spec(x) + seq![0x3eu8], pre.len() as int, acc, None) == Some(acc + x),
    decreases x.len(),
{
    let data = pre + ascii_hex_encode_spec(x) + seq![0x3eu8];
    let i = pre.len() as int;
    if x.len() == 0 {
        assert(data[i] == 0x3e);
        assert(acc + x =~= acc);
    } else {
        let b = x[0];
        let hi = b / 16;
        let lo = b % 16;
        lemma_hex_char(hi as int);
        lemma_hex_char(lo as int);
        let two = seq![hex_char(hi as int), hex_char(lo as int)];
        let rest = x.drop_first();
        assert(ascii_hex_encode_spec(x) == two + ascii_hex_encode_spec(rest));
        assert(data[i] == hex_char(hi as int));
        assert(data[i + 1] == hex_char(lo as int));
        let pre2 = pre + two;
        assert(data =~= pre2 + ascii_hex_encode_spec(rest) + seq![0x3eu8]);
        assert((hi * 16 + lo) as u8 == b);
        assert(ascii_hex_spec(data, i, acc, None) == ascii_hex_spec(data, i + 1, acc, Some(hi as u8)));
        assert(ascii_hex_spec(data, i + 1, acc, Some(hi as u8)) == ascii_hex_spec(data, i + 2, acc.push(b), None));
        assert(pre2.len() == i + 2);
        lemma_ascii_hex_decodes(pre2, rest, acc.push(b));
        assert(acc.push(b) + rest =~= acc + x);
    }
}

/// ASCII-hex decoding inverts ASCII-hex encoding: the two hex digits of each
/// byte, followed by `>`, decode to the bytes.
pub proof fn lemma_ascii_hex_round_trip(x: Seq<u8>)
    ensures
        ascii_hex_spec(ascii_hex_encode_spec(x) + seq![0x3eu8], 0, seq![], None) == Some(x),
{
    lemma_ascii_hex_decodes(seq![], x, seq![]);
    assert(Seq::<u8>::empty() + ascii_hex_encode_spec(x) + seq![0x3eu8] =~= ascii_hex_encode_spec(x) + seq![0x3eu8]);
    assert(Seq::<u8>::empty() + x =~= x);
}

/// A lone final digit `h` before `>` gives the byte `h·16`.
pub proof fn lemma_ascii_hex_odd_tail(x: Seq<u8>, d: int)
    requires
        0 <= d < 16,
    ensures
        ascii_hex_spec(ascii_hex_encode_spec(x) + seq![hex_char(d), 0x3eu8], 0, seq![], None) == Some(x.push((d * 16) as u8)),
{
    let data = ascii_hex_encode_spec(x) + seq![hex_char(d), 0x3eu8];
    lemma_ascii_hex_tail(seq![], x, seq![], d);
    assert(Seq::<u8>::empty() + ascii_hex_encode_spec(x) + seq![hex_char(d), 0x3eu8] =~= data);
    assert(Seq::<u8>::empty() + x =~= x);
}

proof fn lemma_ascii_hex_tail(pre: Seq<u8>, x: Seq<u8>, acc: Seq<u8>, d: int)
    requires
        0 <= d < 16,
    ensures
        ascii_hex_spec(pre + ascii_hex_encode_spec(x) + seq![hex_char(d), 0x3eu8], pre.len() as int, acc, None)
            == Some((acc + x).push((d * 16) as u8)),
    decreases x.len(),
{
    let data = pre + ascii_hex_encode_spec(x) + seq![hex_char(d), 0x3eu8];
    let i = pre.len() as int;
    lemma_hex_char(d);
    if x.len() == 0 {
        assert(data[i] == hex_char(d));
        assert(data[i + 1] == 0x3e);
        assert(ascii_hex_spec(data, i, acc, None) == ascii_hex_spec(data, i + 1, acc, Some(d as u8)));
        assert(acc + x =~= acc);
    } else {
        let b = x[0];
        let hi = b / 16;
        let lo = b % 16;
        lemma_hex_char(hi as int);
        lemma_hex_char(lo as int);
        let two = seq![hex_char(hi as int), hex_char(lo as int)];
        let rest = x.drop_first();
        assert(ascii_hex_encode_spec(x) == two + ascii_hex_encode_spec(rest));
        assert(data[i] == hex_char(hi as int));
        assert(data[i + 1] == hex_char(lo as int));
        let pre2 = pre + two;
        assert(data =~= pre2 + ascii_hex_encode_spec(rest) + seq![hex_char(d), 0x3eu8]);
        assert((hi * 16 + lo) as u8 == b);
        assert(ascii_hex_spec(data, i, acc, None) == ascii_hex_spec(data, i + 1, acc, Some(hi as u8)));
        assert(ascii_hex_spec(data, i + 1, acc, Some(hi as u8)) == ascii_hex_spec(data, i + 2, acc.push(b), None));
        assert(pre2.len() == i + 2);
        lemma_ascii_hex_tail(pre2, rest, acc.push(b), d);
        assert(acc.push(b) + rest =~= acc + x);
    }
}

} // verus!

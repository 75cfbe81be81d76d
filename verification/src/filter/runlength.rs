//! `RunLengthDecode`: byte-oriented run-length coding.
//!
//! Each length byte `L`: `0..=127` → copy the next `L+1` bytes literally;
//! `129..=255` → repeat the next byte `257-L` times; `128` is end-of-data.

use vstd::prelude::*;

use crate::error::{ErrorCode, TurboParsePdfError};

verus! {

/// RunLength decoding from index `i`, `acc` the output so far; `None` when a
/// run is cut short by the end of the data.
pub open spec fn run_length_spec(data: Seq<u8>, i: int, acc: Seq<u8>) -> Option<Seq<u8>>
    decreases data.len() - i,
{
    if i < 0 || i >= data.len() || data[i] == 128 {
        Some(acc)
    } else if data[i] < 128 {
        let count = data[i] + 1;
        if i + 1 + count > data.len() {
            None
        } else {
            run_length_spec(data, i + 1 + count, acc + data.subrange(i + 1, i + 1 + count))
        }
    } else {
        let count = 257 - data[i];
        if i + 1 >= data.len() {
            None
        } else {
            run_length_spec(data, i + 2, acc + Seq::new(count as nat, |k: int| data[i + 1]))
        }
    }
}

/// Decode RunLength data.
pub fn run_length_decode(data: &[u8]) -> (r: Result<Vec<u8>, TurboParsePdfError>)
    ensures
        match run_length_spec(data@, 0, Seq::empty()) {
            Some(v) => r matches Ok(out) && out@ == v,
            None => r matches Err(e) && e.code == ErrorCode::BadStream,
        },
{
    let mut out: Vec<u8> = Vec::new();
    let n = data.len();
    let mut i: usize = 0;
    while i < n
        invariant
            n == data@.len(),
            i <= n,
            run_length_spec(data@, i as int, out@) == run_length_spec(data@, 0, Seq::empty()),
        decreases n - i,
    {
        let length = data[i];
        if length == 128 {
            return Ok(out);
        }
        if length < 128 {
            let count = length as usize + 1;
            if count > n - (i + 1) {
                return Err(TurboParsePdfError::new(ErrorCode::BadStream, "truncated RunLength data"));
            }
            let ghost before = out@;
            let mut k: usize = 0;
            while k < count
                invariant
                    n == data@.len(),
                    i + 1 + count <= n,
                    k <= count,
                    out@ == before + data@.subrange(i + 1, i + 1 + k),
                decreases count - k,
            {
                out.push(data[i + 1 + k]);
                k = k + 1;
                proof {
                    assert(out@ =~= before + data@.subrange(i + 1, i + 1 + k));
                }
            }
            i = i + 1 + count;
        } else {
            let count = 257 - length as usize;
            if i + 1 >= n {
                return Err(TurboParsePdfError::new(ErrorCode::BadStream, "truncated RunLength data"));
            }
            let b = data[i + 1];
            let ghost before = out@;
            let mut k: usize = 0;
            while k < count
                invariant
                    k <= count,
                    out@ == before + Seq::new(k as nat, |j: int| b),
                decreases count - k,
            {
                out.push(b);
                k = k + 1;
                proof {
                    assert(out@ =~= before + Seq::new(k as nat, |j: int| b));
                }
            }
            proof {
                assert(Seq::new(count as nat, |j: int| b) =~= Seq::new(
                    (257 - length) as nat,
                    |j: int| data@[i + 1],
                ));
            }
            i = i + 2;
        }
    }
    Ok(out)
}

// ---------------------------------------------------------------- encoding round trip

/// One run of an encoding: `(true, bytes)` is a literal run of 1 to 128
/// bytes; `(false, bytes)` a repeat run of 2 to 128 copies of one byte.
pub open spec fn valid_run(run: (bool, Seq<u8>)) -> bool {
    if run.0 {
        1 <= run.1.len() <= 128
    } else {
        2 <= run.1.len() <= 128 && forall|k: int| 0 <= k < run.1.len() ==> #[trigger] run.1[k] == run.1[0]
    }
}

/// The bytes of one run: a literal run as its length − 1 and the bytes, a
/// repeat run of `n` copies of `b` as `257 − n` and `b`.
pub open spec fn encode_run(run: (bool, Seq<u8>)) -> Seq<u8> {
    if run.0 {
        seq![(run.1.len() - 1) as u8] + run.1
    } else {
        seq![(257 - run.1.len()) as u8, run.1[0]]
    }
}

/// The encoding of a list of runs (without the end-of-data byte).
pub open spec fn encode_runs(runs: Seq<(bool, Seq<u8>)>) -> Seq<u8>
    decreases runs.len(),
{
    if runs.len() == 0 {
        seq![]
    } else {
        encode_run(runs[0]) + encode_runs(runs.drop_first())
    }
}

/// The bytes the runs stand for, in order.
pub open spec fn expand_runs(runs: Seq<(bool, Seq<u8>)>) -> Seq<u8>
    decreases runs.len(),
{
    if runs.len() == 0 {
        seq![]
    } else {
        runs[0].1 + expand_runs(runs.drop_first())
    }
}

proof fn lemma_decode_runs(pre: Seq<u8>, runs: Seq<(bool, Seq<u8>)>, acc: Seq<u8>)
    requires
        forall|j: int| 0 <= j < runs.len() ==> valid_run(#[trigger] runs[j]),
    ensures
        run_length_spec(pre + encode_runs(runs) + seq![128u8], pre.len() as int, acc) == Some(acc + expand_runs(runs)),
    decreases runs.len(),
{
    let data = pre + encode_runs(runs) + seq![128u8];
    let i = pre.len() as int;
    if runs.len() == 0 {
        assert(data[i] == 128);
        assert(acc + Seq::<u8>::empty() =~= acc);
    } else {
        let run = runs[0];
        let rest = runs.drop_first();
        assert(valid_run(run));
        assert forall|j: int| 0 <= j < rest.len() implies valid_run(#[trigger] rest[j]) by {
            assert(rest[j] == runs[j + 1]);
        }
        let er = encode_run(run);
        let pre2 = pre + er;
        assert(data =~= pre2 + encode_runs(rest) + seq![128u8]);
        lemma_decode_runs(pre2, rest, acc + run.1);
        if run.0 {
            let n = run.1.len() as int;
            assert(data[i] == (n - 1) as u8);
            assert(data.subrange(i + 1, i + 1 + n) =~= run.1);
        } else {
            let n = run.1.len() as int;
            assert(data[i] == (257 - n) as u8);
            assert(data[i + 1] == run.1[0]);
            assert(Seq::new((257 - data[i]) as nat, |k: int| data[i + 1]) =~= run.1);
        }
        assert(acc + run.1 + expand_runs(rest) =~= acc + expand_runs(runs));
    }
}

/// RunLength decoding inverts RunLength encoding: for any list of literal runs
/// (1 to 128 bytes, written as length − 1 then the bytes) and repeat runs (2 to
/// 128 copies of a byte, written as 257 − count then the byte), ended by 128,
/// decoding gives the bytes the runs stand for, in order.
pub proof fn lemma_run_length_round_trip(runs: Seq<(bool, Seq<u8>)>)
    requires
        forall|j: int| 0 <= j < runs.len() ==> valid_run(#[trigger] runs[j]),
    ensures
        run_length_spec(encode_runs(runs) + seq![128u8], 0, seq![]) == Some(expand_runs(runs)),
{
    lemma_decode_runs(seq![], runs, seq![]);
    assert(Seq::<u8>::empty() + encode_runs(runs) + seq![128u8] =~= encode_runs(runs) + seq![128u8]);
    assert(Seq::<u8>::empty() + expand_runs(runs) =~= expand_runs(runs));
}

} // verus!

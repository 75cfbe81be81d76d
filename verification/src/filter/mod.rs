//! Stream filter dispatch (ISO 32000-1 §7.4).
//!
//! A stream's `/Filter` is a single name or an array of names applied in order;
//! [`decode_stream`] walks that chain, applying each filter and the matching
//! `/DecodeParms` predictor. Supported: `FlateDecode`, `LZWDecode`,
//! `ASCII85Decode`, `ASCIIHexDecode`, `RunLengthDecode`, with PNG/TIFF
//! predictors for the two compression filters. Image filters (`DCTDecode`,
//! `JPXDecode`, `CCITTFaxDecode`, `JBIG2Decode`) pass through untouched.

pub mod ascii85;
pub mod asciihex;
pub mod inflate;
pub mod lzw;
pub mod predictor;
pub mod runlength;

use vstd::prelude::*;
use vstd::string::StringExecFns;

use crate::error::{ErrorCode, TurboParsePdfError};
use crate::object::{copy_bytes, lookup, str_eq, Dictionary, Object, Val};
use self::ascii85::{ascii85_decode, ascii85_spec};
use self::asciihex::{ascii_hex_decode, ascii_hex_spec};
use self::inflate::{flate_decode, inflate_spec, strip_zlib_spec};
use self::lzw::{initial_table, lzw_decode, lzw_spec};
use self::predictor::predictor_spec;
use self::runlength::{run_length_decode, run_length_spec};

verus! {

/// The value under `key`, or else under its abbreviation `abbr`.
pub open spec fn lookup_either(d: Seq<(Seq<char>, Val)>, key: Seq<char>, abbr: Seq<char>) -> Option<Val> {
    match lookup(d, key) {
        Some(v) => Some(v),
        None => lookup(d, abbr),
    }
}

/// The names among `items`, in order.
pub open spec fn names_in(items: Seq<Val>) -> Seq<Seq<char>>
    decreases items.len(),
{
    if items.len() == 0 {
        seq![]
    } else {
        let rest = names_in(items.drop_last());
        match items.last() {
            Val::Name(n) => rest.push(n),
            _ => rest,
        }
    }
}

/// The ordered filter names from `/Filter` (or `/F`): one name, the names of
/// an array, or none.
pub open spec fn filter_names_spec(d: Seq<(Seq<char>, Val)>) -> Seq<Seq<char>> {
    match lookup_either(d, "Filter"@, "F"@) {
        Some(Val::Name(n)) => seq![n],
        Some(Val::Array(items)) => names_in(items),
        _ => seq![],
    }
}

/// The dictionary of a dictionary or stream value.
pub open spec fn parm_of_spec(v: Val) -> Option<Seq<(Seq<char>, Val)>> {
    match v {
        Val::Dict(e) => Some(e),
        Val::Stream(e, _) => Some(e),
        _ => None,
    }
}

/// The per-filter parameters from `/DecodeParms` (or `/DP`): a single
/// dictionary for the first of `n` filters, one entry per array element, or
/// `n` absent entries.
pub open spec fn parms_spec(d: Seq<(Seq<char>, Val)>, n: nat) -> Seq<Option<Seq<(Seq<char>, Val)>>> {
    match lookup_either(d, "DecodeParms"@, "DP"@) {
        Some(Val::Dict(e)) => Seq::new(n, |i: int| if i == 0 { Some(e) } else { None }),
        Some(Val::Array(items)) => items.map_values(|v: Val| parm_of_spec(v)),
        _ => Seq::new(n, |i: int| None),
    }
}

/// A decoder's optional result as a bad-stream error.
pub open spec fn or_bad(r: Option<Seq<u8>>) -> Result<Seq<u8>, ErrorCode> {
    match r {
        Some(v) => Ok(v),
        None => Err(ErrorCode::BadStream),
    }
}

/// The predictor of the parameters, when there are parameters.
pub open spec fn predictor_maybe_spec(parms: Option<Seq<(Seq<char>, Val)>>, data: Seq<u8>) -> Result<Seq<u8>, ErrorCode> {
    match parms {
        Some(p) => or_bad(predictor_spec(data, p)),
        None => Ok(data),
    }
}

/// LZW `/EarlyChange`: true unless the parameters hold a zero integer.
pub open spec fn early_change_spec(parms: Option<Seq<(Seq<char>, Val)>>) -> bool {
    match parms {
        Some(p) => match lookup(p, "EarlyChange"@) {
            Some(Val::Integer(n)) => n != 0,
            _ => true,
        },
        None => true,
    }
}

/// One named filter applied to `data`.
#[verifier::opaque]
pub open spec fn apply_one_spec(name: Seq<char>, parms: Option<Seq<(Seq<char>, Val)>>, data: Seq<u8>) -> Result<Seq<u8>, ErrorCode> {
    if name == "FlateDecode"@ || name == "Fl"@ {
        match inflate_spec(strip_zlib_spec(data)) {
            Some(v) => predictor_maybe_spec(parms, v),
            None => Err(ErrorCode::BadStream),
        }
    } else if name == "LZWDecode"@ || name == "LZW"@ {
        match lzw_spec(data, 0, initial_table(), 9, early_change_spec(parms), None, seq![]) {
            Some(v) => predictor_maybe_spec(parms, v),
            None => Err(ErrorCode::BadStream),
        }
    } else if name == "ASCII85Decode"@ || name == "A85"@ {
        or_bad(ascii85_spec(data, 0, seq![], seq![]))
    } else if name == "ASCIIHexDecode"@ || name == "AHx"@ {
        or_bad(ascii_hex_spec(data, 0, seq![], None))
    } else if name == "RunLengthDecode"@ || name == "RL"@ {
        or_bad(run_length_spec(data, 0, seq![]))
    } else if name == "DCTDecode"@ || name == "JPXDecode"@ || name == "CCITTFaxDecode"@ || name
        == "JBIG2Decode"@ {
        Ok(data)
    } else {
        Err(ErrorCode::Unsupported)
    }
}

/// The first `k` (filter, parameters) pairs applied in order to `raw`.
pub open spec fn chain_spec(names: Seq<Seq<char>>, parms: Seq<Option<Seq<(Seq<char>, Val)>>>, k: nat, raw: Seq<u8>) -> Result<Seq<u8>, ErrorCode>
    decreases k,
{
    if k == 0 {
        Ok(raw)
    } else {
        match chain_spec(names, parms, (k - 1) as nat, raw) {
            Ok(d) => apply_one_spec(names[k - 1], parms[k - 1], d),
            Err(e) => Err(e),
        }
    }
}

/// The parameters of each of `n` filters: the `/DecodeParms` entry at the
/// same position, or none past the end of that list.
pub open spec fn padded_parms(parms: Seq<Option<Seq<(Seq<char>, Val)>>>, n: nat) -> Seq<Option<Seq<(Seq<char>, Val)>>> {
    Seq::new(n, |i: int| if i < parms.len() { parms[i] } else { None })
}

/// A stream body decoded by its filter chain: every filter of `/Filter`
/// applied in order, each with the `/DecodeParms` entry at its position (none
/// where that list is shorter).
pub open spec fn decode_stream_spec(d: Seq<(Seq<char>, Val)>, raw: Seq<u8>) -> Result<Seq<u8>, ErrorCode> {
    let names = filter_names_spec(d);
    let parms = padded_parms(parms_spec(d, names.len()), names.len());
    chain_spec(names, parms, names.len(), raw)
}

/// Once a filter of the chain fails, the chain fails with that error.
proof fn lemma_chain_err(names: Seq<Seq<char>>, parms: Seq<Option<Seq<(Seq<char>, Val)>>>, m: nat, k: nat, raw: Seq<u8>)
    requires
        m <= k,
        chain_spec(names, parms, m, raw) is Err,
    ensures
        chain_spec(names, parms, k, raw) == chain_spec(names, parms, m, raw),
    decreases k,
{
    if k > m {
        lemma_chain_err(names, parms, m, (k - 1) as nat, raw);
    }
}

/// Decode a stream body by applying its `/Filter` chain (+ predictors) to `raw`.
pub fn decode_stream(dict: &Dictionary, raw: &[u8]) -> (r: Result<Vec<u8>, TurboParsePdfError>)
    ensures
        match decode_stream_spec(dict@, raw@) {
            Ok(v) => r matches Ok(out) && out@ == v,
            Err(c) => r matches Err(e) && e.code == c,
        },
{
    let filters = filter_names(dict);
    let parms = parms_list(dict, filters.len());
    let ghost names = filter_names_spec(dict@);
    let ghost pv = parms_spec(dict@, names.len());
    let ghost padded = padded_parms(pv, names.len());
    let n = filters.len();
    let mut data = copy_bytes(raw);
    let mut i: usize = 0;
    while i < n
        invariant
            names == filter_names_spec(dict@),
            pv == parms_spec(dict@, names.len()),
            padded == padded_parms(pv, names.len()),
            n == names.len(),
            i <= n,
            filters@.len() == names.len(),
            parms@.len() == pv.len(),
            forall|j: int| 0 <= j < filters@.len() ==> #[trigger] filters@[j]@ == names[j],
            forall|j: int| 0 <= j < parms@.len() ==> #[trigger] opt_view(parms@[j]) == pv[j],
            chain_spec(names, padded, i as nat, raw@) == Ok::<Seq<u8>, ErrorCode>(data@),
        decreases n - i,
    {
        let parm = if i < parms.len() {
            match &parms[i] {
                Some(p) => Some(p),
                None => None,
            }
        } else {
            None
        };
        let ghost before = data@;
        proof {
            if i < parms.len() {
                assert(opt_view(parms@[i as int]) == pv[i as int]);
            }
        }
        assert(filters@[i as int]@ == names[i as int]);
        assert((match parm {
            Some(p) => Some(p@),
            None => None,
        }) == padded[i as int]);
        let step = apply_one(filters[i].as_str(), parm, data.as_slice());
        assert(chain_spec(names, padded, (i + 1) as nat, raw@) == apply_one_spec(names[i as int], padded[i as int], before));
        match step {
            Ok(d) => {
                data = d;
            },
            Err(e) => {
                proof {
                    lemma_chain_err(names, padded, (i + 1) as nat, n as nat, raw@);
                }
                return Err(e);
            },
        }
        i += 1;
    }
    Ok(data)
}

/// The view of an optional dictionary.
pub open spec fn opt_view(p: Option<Dictionary>) -> Option<Seq<(Seq<char>, Val)>> {
    match p {
        Some(d) => Some(d@),
        None => None,
    }
}

/// Collect the ordered filter names from `/Filter` / `/F` (name, array, absent).
fn filter_names(dict: &Dictionary) -> (r: Vec<String>)
    ensures
        r@.len() == filter_names_spec(dict@).len(),
        forall|j: int| 0 <= j < r@.len() ==> #[trigger] r@[j]@ == filter_names_spec(dict@)[j],
{
    let found = match dict.get("Filter") {
        Some(o) => Some(o),
        None => dict.get("F"),
    };
    let mut out: Vec<String> = Vec::new();
    match found {
        Some(Object::Name(n)) => {
            out.push(n.clone());
        },
        Some(Object::Array(items)) => {
            proof {
                crate::object::lemma_array_val(*items);
            }
            let ghost vs = crate::object::vals(items@);
            let mut i: usize = 0;
            while i < items.len()
                invariant
                    i <= items@.len(),
                    vs == crate::object::vals(items@),
                    out@.len() == names_in(vs.subrange(0, i as int)).len(),
                    forall|j: int| 0 <= j < out@.len() ==> #[trigger] out@[j]@ == names_in(vs.subrange(0, i as int))[j],
                decreases items@.len() - i,
            {
                let ghost pre = vs.subrange(0, i as int);
                assert(vs.subrange(0, i + 1).drop_last() =~= pre);
                if let Some(n) = name_of(&items[i]) {
                    out.push(n);
                }
                i += 1;
            }
            assert(vs.subrange(0, items@.len() as int) =~= vs);
        },
        _ => {},
    }
    out
}

fn name_of(obj: &Object) -> (r: Option<String>)
    ensures
        match obj@ {
            Val::Name(n) => r matches Some(s) && s@ == n,
            _ => r is None,
        },
{
    match obj.as_name() {
        Some(n) => Some(n.to_owned()),
        None => None,
    }
}

/// Collect the per-filter `/DecodeParms` (`/DP`): single dict, array, or absent.
fn parms_list(dict: &Dictionary, n: usize) -> (r: Vec<Option<Dictionary>>)
    ensures
        r@.len() == parms_spec(dict@, n as nat).len(),
        forall|j: int| 0 <= j < r@.len() ==> #[trigger] opt_view(r@[j]) == parms_spec(dict@, n as nat)[j],
{
    let found = match dict.get("DecodeParms") {
        Some(o) => Some(o),
        None => dict.get("DP"),
    };
    match found {
        Some(Object::Dictionary(d)) => one_then_none(d.clone(), n),
        Some(Object::Array(items)) => {
            proof {
                crate::object::lemma_array_val(*items);
            }
            let mut out: Vec<Option<Dictionary>> = Vec::new();
            let mut i: usize = 0;
            while i < items.len()
                invariant
                    i <= items@.len(),
                    out@.len() == i,
                    forall|j: int| 0 <= j < i ==> #[trigger] opt_view(out@[j]) == parm_of_spec(items@[j]@),
                decreases items@.len() - i,
            {
                out.push(parm_of(&items[i]));
                i += 1;
            }
            out
        },
        _ => {
            let mut out: Vec<Option<Dictionary>> = Vec::new();
            let mut i: usize = 0;
            while i < n
                invariant
                    i <= n,
                    out@.len() == i,
                    forall|j: int| 0 <= j < i ==> (#[trigger] out@[j]) is None,
                decreases n - i,
            {
                out.push(None);
                i += 1;
            }
            out
        },
    }
}

/// `n` parameter slots: the dictionary in the first, none in the rest.
pub fn one_then_none(d: Dictionary, n: usize) -> (r: Vec<Option<Dictionary>>)
    ensures
        r@.len() == n,
        forall|j: int| 0 <= j < n ==> #[trigger] opt_view(r@[j]) == if j == 0 { Some(d@) } else { None },
{
    let mut v: Vec<Option<Dictionary>> = Vec::new();
    if n == 0 {
        return v;
    }
    v.push(Some(d));
    let mut i: usize = 1;
    while i < n
        invariant
            1 <= i <= n,
            v@.len() == i,
            opt_view(v@[0]) == Some(d@),
            forall|j: int| 1 <= j < i ==> (#[trigger] v@[j]) is None,
        decreases n - i,
    {
        v.push(None);
        i += 1;
    }
    v
}

/// The dictionary of a dictionary or stream parameter entry.
pub fn parm_of(obj: &Object) -> (r: Option<Dictionary>)
    ensures
        opt_view(r) == parm_of_spec(obj@),
{
    match obj.as_dict() {
        Some(d) => Some(d.clone()),
        None => None,
    }
}

/// Apply a single named filter (and its predictor for compression filters).
fn apply_one(name: &str, parms: Option<&Dictionary>, data: &[u8]) -> (r: Result<Vec<u8>, TurboParsePdfError>)
    ensures
        match apply_one_spec(name@, match parms { Some(p) => Some(p@), None => None }, data@) {
            Ok(v) => r matches Ok(out) && out@ == v,
            Err(c) => r matches Err(e) && e.code == c,
        },
{
    reveal(apply_one_spec);
    if str_eq(name, "FlateDecode") || str_eq(name, "Fl") {
        let d = flate_decode(data)?;
        predictor_maybe(parms, d)
    } else if str_eq(name, "LZWDecode") || str_eq(name, "LZW") {
        let d = lzw_decode(data, early_change(parms))?;
        predictor_maybe(parms, d)
    } else if str_eq(name, "ASCII85Decode") || str_eq(name, "A85") {
        ascii85_decode(data)
    } else if str_eq(name, "ASCIIHexDecode") || str_eq(name, "AHx") {
        ascii_hex_decode(data)
    } else if str_eq(name, "RunLengthDecode") || str_eq(name, "RL") {
        run_length_decode(data)
    } else if str_eq(name, "DCTDecode") || str_eq(name, "JPXDecode") || str_eq(name, "CCITTFaxDecode")
        || str_eq(name, "JBIG2Decode") {
        Ok(copy_bytes(data))
    } else {
        Err(unsupported(name))
    }
}

/// Apply the `/DecodeParms` predictor when one is present.
fn predictor_maybe(parms: Option<&Dictionary>, data: Vec<u8>) -> (r: Result<Vec<u8>, TurboParsePdfError>)
    ensures
        match predictor_maybe_spec(match parms { Some(p) => Some(p@), None => None }, data@) {
            Ok(v) => r matches Ok(out) && out@ == v,
            Err(c) => r matches Err(e) && e.code == c,
        },
{
    match parms {
        Some(p) => predictor::apply(data.as_slice(), p),
        None => Ok(data),
    }
}

/// LZW `/EarlyChange` (default 1 → true).
pub fn early_change(parms: Option<&Dictionary>) -> (r: bool)
    ensures
        r == early_change_spec(match parms { Some(p) => Some(p@), None => None }),
{
    match parms {
        Some(p) => match p.get("EarlyChange") {
            Some(o) => match o.as_integer() {
                Some(n) => n != 0,
                None => true,
            },
            None => true,
        },
        None => true,
    }
}

/// The error for a filter this decoder does not implement.
fn unsupported(name: &str) -> (e: TurboParsePdfError)
    ensures
        e.code == ErrorCode::Unsupported,
        e.message@ == "unsupported filter: "@ + name@,
{
    let mut msg = String::from_str("unsupported filter: ");
    msg.append(name);
    TurboParsePdfError::new(ErrorCode::Unsupported, msg.as_str())
}

} // verus!

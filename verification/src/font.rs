//! Font decoding (ISO 32000-1 §9.6–9.10): character codes → Unicode + advances.
//!
//! A [`Font`] turns the bytes of a shown string into character codes (one byte
//! per code for simple fonts, two for Type0/Identity fonts), each code into its
//! Unicode text, and each code into its advance width. Text comes from the
//! font's `/ToUnicode` CMap when that gives a meaningful string, else from the
//! simple-font encoding (base encoding + `/Differences` through the Adobe Glyph
//! List), else — for codes the CMap does not mention at all — from the code's
//! printable-ASCII value. Fonts of the Symbol and MT-Extra families whose CMap
//! maps a code into the private-use area `U+F0xx` get the real character back
//! through the family's table. Widths are kept as the number objects of the
//! font dictionary, in thousandths of an em.

use std::collections::HashMap;

use vstd::prelude::*;
use vstd::string::StrSliceExecFns;
use vstd::string::StringExecFns;

use crate::agl::{
    base_encoding, base_encoding_spec, char_from_u32, char_of, glyph_spec, glyph_to_unicode, mtextra_pua_spec,
    mtextra_pua_to_unicode, symbol_pua_spec, symbol_pua_to_unicode,
};
use crate::cmap::{be, be_spec, char_string, lookup_spec, parse_spec, CMap, CMapState};
use crate::error::ErrorCode;
use crate::filter::{decode_stream, decode_stream_spec};
use crate::object::{lookup, vals, Dictionary, Object, Val};
use crate::pagetree::dict_res;
use crate::resolver::Resolver;

verus! {

broadcast use vstd::std_specs::hash::group_hash_axioms;

// ---------------------------------------------------------------- text tests

/// A Private Use Area character (U+E000–U+F8FF).
pub open spec fn is_pua_spec(c: char) -> bool {
    0xE000 <= (c as u32) && (c as u32) <= 0xF8FF
}

/// A C0 or C1 control character (U+0000–U+001F, U+007F–U+009F).
pub open spec fn is_control_spec(c: char) -> bool {
    (c as u32) <= 0x1F || (0x7F <= (c as u32) && (c as u32) <= 0x9F)
}

/// A CMap result worth using: not empty and not made of PUA characters only.
pub open spec fn use_cmap_spec(s: Seq<char>) -> bool {
    s.len() > 0 && exists|i: int| 0 <= i < s.len() && !is_pua_spec(#[trigger] s[i])
}

/// [`use_cmap_spec`], and not made of control characters only.
pub open spec fn use_cmap_strict_spec(s: Seq<char>) -> bool {
    use_cmap_spec(s) && exists|i: int| 0 <= i < s.len() && !is_control_spec(#[trigger] s[i])
}

/// True when a character lies in the Private Use Area (U+E000–U+F8FF).
pub fn is_pua(c: char) -> (r: bool)
    ensures
        r == is_pua_spec(c),
{
    let v = c as u32;
    0xE000 <= v && v <= 0xF8FF
}

/// True when a character is a C0 or C1 control character.
pub fn is_control(c: char) -> (r: bool)
    ensures
        r == is_control_spec(c),
{
    let v = c as u32;
    v <= 0x1F || (0x7F <= v && v <= 0x9F)
}

/// Some character of `s` is outside the Private Use Area.
fn has_non_pua(s: &str) -> (r: bool)
    ensures
        r == exists|i: int| 0 <= i < s@.len() && !is_pua_spec(#[trigger] s@[i]),
{
    let n = s.unicode_len();
    let mut i: usize = 0;
    while i < n
        invariant
            n == s@.len(),
            i <= n,
            forall|j: int| 0 <= j < i ==> is_pua_spec(#[trigger] s@[j]),
        decreases n - i,
    {
        if !is_pua(s.get_char(i)) {
            assert(!is_pua_spec(s@[i as int]));
            return true;
        }
        i += 1;
    }
    false
}

/// Some character of `s` is not a control character.
fn has_non_control(s: &str) -> (r: bool)
    ensures
        r == exists|i: int| 0 <= i < s@.len() && !is_control_spec(#[trigger] s@[i]),
{
    let n = s.unicode_len();
    let mut i: usize = 0;
    while i < n
        invariant
            n == s@.len(),
            i <= n,
            forall|j: int| 0 <= j < i ==> is_control_spec(#[trigger] s@[j]),
        decreases n - i,
    {
        if !is_control(s.get_char(i)) {
            assert(!is_control_spec(s@[i as int]));
            return true;
        }
        i += 1;
    }
    false
}

/// True when a CMap result is meaningful (not empty and not only PUA).
pub fn use_cmap(s: &str) -> (r: bool)
    ensures
        r == use_cmap_spec(s@),
{
    !s.is_empty() && has_non_pua(s)
}

/// Stricter variant of [`use_cmap`] that also rejects strings made only of
/// control characters, which a broken CMap tends to produce.
pub fn use_cmap_strict(s: &str) -> (r: bool)
    ensures
        r == use_cmap_strict_spec(s@),
{
    use_cmap(s) && has_non_control(s)
}

// ---------------------------------------------------------------- code → text

/// The simple-encoding character for a code (never for two-byte fonts; a table
/// slot of 0 means "unmapped").
pub open spec fn simple_char_spec(two_byte: bool, enc: Seq<u32>, code: u32) -> Option<char> {
    if two_byte || code >= 256 || enc[code as int] == 0 {
        None
    } else {
        char_of(enc[code as int])
    }
}

/// The printable-ASCII reading of a code (32–126), the last resort for codes a
/// CMap does not mention.
pub open spec fn ascii_fallback(code: u32) -> Option<char> {
    if 32 <= code && code <= 126 {
        Some(code as char)
    } else {
        None
    }
}

/// The text of an optional character.
pub open spec fn opt_chars(c: Option<char>) -> Seq<char> {
    match c {
        Some(x) => seq![x],
        None => seq![],
    }
}

/// The private-use-area family of a font: its private-use points stand for
/// the glyphs of a known encoding.
#[derive(Debug, Clone, Copy, PartialEq, Eq, Structural)]
pub enum PuaFamily {
    /// An ordinary font.
    Plain,
    /// Adobe Symbol / SymbolMT: `U+F0xx` is Symbol-encoding byte `xx`.
    Symbol,
    /// MathType's MT-Extra.
    MTextra,
}

/// The real character behind the first character of a CMap string, for a
/// font of a private-use-area family.
pub open spec fn pua_char_spec(family: PuaFamily, s: Seq<char>) -> Option<char> {
    if s.len() == 0 {
        None
    } else {
        match family {
            PuaFamily::Symbol => symbol_pua_spec(s[0] as u32),
            PuaFamily::MTextra => mtextra_pua_spec(s[0] as u32),
            PuaFamily::Plain => None,
        }
    }
}

/// The Unicode text of a code. A meaningful CMap mapping wins. A code the CMap
/// maps to a rejected string (PUA or control only) takes, for a Symbol or
/// MT-Extra font, the real character behind that private-use point, else the
/// simple encoding's character, but never its byte value; a code the CMap does
/// not map takes the simple encoding's character, else its printable-ASCII
/// value.
pub open spec fn text_spec(two_byte: bool, enc: Seq<u32>, cmap: Option<CMapState>, family: PuaFamily, code: u32) -> Seq<
    char,
> {
    let mapped = match cmap {
        Some(st) => lookup_spec(st, code),
        None => None,
    };
    match mapped {
        Some(s) => if use_cmap_strict_spec(s) {
            s
        } else {
            match pua_char_spec(family, s) {
                Some(c) => seq![c],
                None => opt_chars(simple_char_spec(two_byte, enc, code)),
            }
        },
        None => match simple_char_spec(two_byte, enc, code) {
            Some(c) => seq![c],
            None => opt_chars(ascii_fallback(code)),
        },
    }
}

/// The codes of a shown string: consecutive chunks of `step` bytes (the last
/// one possibly shorter), each read big-endian.
pub open spec fn codes_spec(bytes: Seq<u8>, step: int) -> Seq<u32>
    decreases bytes.len(),
{
    if bytes.len() == 0 || step <= 0 {
        seq![]
    } else {
        let end = if step < bytes.len() { step } else { bytes.len() as int };
        seq![be_spec(bytes.subrange(0, end))] + codes_spec(bytes.subrange(end, bytes.len() as int), step)
    }
}

/// The width of a code in thousandths of an em: its own entry, else the default.
pub open spec fn width_spec(widths: Map<u32, Val>, default: Val, code: u32) -> Val {
    if widths.contains_key(code) {
        widths[code]
    } else {
        default
    }
}

/// A number object (integer or real).
pub open spec fn is_number(v: Val) -> bool {
    v is Integer || v is Real
}

/// A decoded font: text mapping and advance widths.
pub struct Font {
    two_byte: bool,
    to_unicode: Option<CMap>,
    simple_enc: [u32; 256],
    widths: HashMap<u32, Object>,
    default_width: Object,
    pua_family: PuaFamily,
}

impl Font {
    /// The font's private-use-area family.
    pub closed spec fn family(&self) -> PuaFamily {
        self.pua_family
    }

    /// Codes are two bytes wide (Type0 / Identity fonts).
    pub closed spec fn is_two_byte(&self) -> bool {
        self.two_byte
    }

    /// The byte → code point table of a simple font (0 = unmapped).
    pub closed spec fn encoding(&self) -> Seq<u32> {
        self.simple_enc@
    }

    /// The `/ToUnicode` CMap, if the font has one.
    pub closed spec fn cmap(&self) -> Option<CMapState> {
        match self.to_unicode {
            Some(c) => Some(c.state()),
            None => None,
        }
    }

    /// Per-code widths, in thousandths of an em.
    pub closed spec fn width_map(&self) -> Map<u32, Val> {
        num_map(self.widths@)
    }

    /// The width of a code without an entry, in thousandths of an em.
    pub closed spec fn default_width_val(&self) -> Val {
        self.default_width@
    }

    /// The text of `code` in this font.
    pub open spec fn spec_text(&self, code: u32) -> Seq<char> {
        text_spec(self.is_two_byte(), self.encoding(), self.cmap(), self.family(), code)
    }

    /// A simple (one-byte) font: encoding table, `/ToUnicode`, and widths; codes
    /// without a width are half an em wide.
    pub fn simple(to_unicode: Option<CMap>, simple_enc: [u32; 256], widths: HashMap<u32, Object>, family: PuaFamily) -> (r: Font)
        ensures
            !r.is_two_byte(),
            r.family() == family,
            r.encoding() == simple_enc@,
            r.cmap() == (match to_unicode {
                Some(c) => Some(c.state()),
                None => None::<CMapState>,
            }),
            r.width_map() == num_map(widths@),
            r.default_width_val() == Val::Integer(500),
    {
        Font { two_byte: false, to_unicode, simple_enc, widths, default_width: Object::Integer(500), pua_family: family }
    }

    /// A Type0 (two-byte CID) font: `/ToUnicode`, CID widths and the default
    /// width `/DW` (one em when absent or not a number).
    pub fn type0(to_unicode: Option<CMap>, widths: HashMap<u32, Object>, dw: Option<&Object>, family: PuaFamily) -> (r: Font)
        ensures
            r.is_two_byte(),
            r.family() == family,
            r.encoding() == Seq::new(256, |i: int| 0u32),
            r.cmap() == (match to_unicode {
                Some(c) => Some(c.state()),
                None => None::<CMapState>,
            }),
            r.width_map() == num_map(widths@),
            r.default_width_val() == (match dw {
                Some(o) => if is_number(o@) {
                    o@
                } else {
                    Val::Integer(1000)
                },
                None => Val::Integer(1000),
            }),
    {
        let default_width = match dw {
            Some(o) => match o {
                Object::Integer(_) | Object::Real(_) => o.clone(),
                _ => Object::Integer(1000),
            },
            None => Object::Integer(1000),
        };
        let f = Font { two_byte: true, to_unicode, simple_enc: [0u32; 256], widths, default_width, pua_family: family };
        assert(f.encoding() =~= Seq::new(256, |i: int| 0u32));
        f
    }

    /// Codes are two bytes wide.
    pub fn two_byte(&self) -> (r: bool)
        ensures
            r == self.is_two_byte(),
    {
        self.two_byte
    }

    /// The simple-encoding character of a code.
    pub fn simple_char(&self, code: u32) -> (r: Option<char>)
        ensures
            r == simple_char_spec(self.is_two_byte(), self.encoding(), code),
    {
        if self.two_byte || code >= 256 {
            return None;
        }
        let cp = self.simple_enc[code as usize];
        if cp == 0 {
            None
        } else {
            char_from_u32(cp)
        }
    }

    /// The real character behind a CMap string's first (private-use) character,
    /// for a Symbol or MT-Extra font.
    pub fn pua_char(&self, s: &str) -> (r: Option<char>)
        ensures
            r == pua_char_spec(self.family(), s@),
    {
        if s.unicode_len() == 0 {
            return None;
        }
        let first = s.get_char(0) as u32;
        match self.pua_family {
            PuaFamily::Symbol => symbol_pua_to_unicode(first),
            PuaFamily::MTextra => mtextra_pua_to_unicode(first),
            PuaFamily::Plain => None,
        }
    }

    /// The Unicode text of one code (see [`text_spec`]).
    pub fn text_for(&self, code: u32) -> (r: String)
        ensures
            r@ == self.spec_text(code),
    {
        let mapped = match &self.to_unicode {
            Some(c) => c.lookup(code),
            None => None,
        };
        match mapped {
            Some(s) => {
                if use_cmap_strict(s.as_str()) {
                    s
                } else {
                    match self.pua_char(s.as_str()) {
                        Some(c) => char_string(c),
                        None => match self.simple_char(code) {
                            Some(c) => char_string(c),
                            None => String::new(),
                        },
                    }
                }
            },
            None => match self.simple_char(code) {
                Some(c) => char_string(c),
                None => {
                    if 32 <= code && code <= 126 {
                        char_string(code as u8 as char)
                    } else {
                        String::new()
                    }
                },
            },
        }
    }

    /// Append one code's Unicode text to `out`.
    pub fn append_text(&self, code: u32, out: &mut String)
        ensures
            final(out)@ == old(out)@ + self.spec_text(code),
    {
        let t = self.text_for(code);
        out.append(t.as_str());
    }

    /// Split a shown string into codes (one or two bytes each).
    pub fn codes(&self, bytes: &[u8]) -> (r: Vec<u32>)
        ensures
            r@ == codes_spec(bytes@, if self.is_two_byte() { 2 } else { 1 }),
    {
        let step: usize = if self.two_byte { 2 } else { 1 };
        let mut out: Vec<u32> = Vec::new();
        let mut i: usize = 0;
        proof {
            assert(bytes@.subrange(0, bytes@.len() as int) =~= bytes@);
            assert(out@ + codes_spec(bytes@, step as int) =~= codes_spec(bytes@, step as int));
        }
        while i < bytes.len()
            invariant
                step == (if self.is_two_byte() { 2usize } else { 1usize }),
                i <= bytes@.len(),
                out@ + codes_spec(bytes@.subrange(i as int, bytes@.len() as int), step as int)
                    == codes_spec(bytes@, step as int),
            decreases bytes@.len() - i,
        {
            let end = if step < bytes.len() - i { i + step } else { bytes.len() };
            let code = be(&bytes[i..end]);
            proof {
                let rest = bytes@.subrange(i as int, bytes@.len() as int);
                assert(rest.subrange(0, end - i) =~= bytes@.subrange(i as int, end as int));
                assert(rest.subrange(end - i, rest.len() as int) =~= bytes@.subrange(
                    end as int,
                    bytes@.len() as int,
                ));
                assert(out@.push(code) + codes_spec(bytes@.subrange(end as int, bytes@.len() as int), step as int)
                    =~= out@ + codes_spec(rest, step as int));
            }
            out.push(code);
            i = end;
        }
        proof {
            assert(bytes@.subrange(i as int, bytes@.len() as int) =~= Seq::<u8>::empty());
            assert(out@ + Seq::<u32>::empty() =~= out@);
        }
        out
    }

    /// A code's advance width in thousandths of an em (a number object).
    pub fn width(&self, code: u32) -> (r: &Object)
        ensures
            r@ == width_spec(self.width_map(), self.default_width_val(), code),
    {
        match self.widths.get(&code) {
            Some(w) => w,
            None => &self.default_width,
        }
    }

    /// Word spacing applies to the code: a single-byte code 32.
    pub fn word_space(&self, code: u32) -> (r: bool)
        ensures
            r == (!self.is_two_byte() && code == 32),
    {
        !self.two_byte && code == 32
    }
}

// ---------------------------------------------------------------- encodings

/// A `/Differences` step: glyph `name` placed at `code` (when the code is a
/// table slot and the name is a known glyph).
pub open spec fn place_spec(t: Seq<u32>, code: int, name: Seq<char>) -> Seq<u32> {
    if 0 <= code < 256 && glyph_spec(name) is Some {
        t.update(code, glyph_spec(name)->0 as u32)
    } else {
        t
    }
}

/// A `/Differences` array applied from item `k` on, the current code being
/// `code`: an integer sets the code (negatives count as 0), a name places its
/// glyph and moves to the next code, anything else is skipped.
pub open spec fn differences_from(diffs: Seq<Val>, k: int, code: int, t: Seq<u32>) -> Seq<u32>
    decreases diffs.len() - k,
{
    if k < 0 || k >= diffs.len() {
        t
    } else {
        match diffs[k] {
            Val::Integer(n) => differences_from(diffs, k + 1, if n < 0 { 0 } else { n as int }, t),
            Val::Name(name) => differences_from(diffs, k + 1, code + 1, place_spec(t, code, name)),
            _ => differences_from(diffs, k + 1, code, t),
        }
    }
}

/// Past the table, the exact code no longer matters.
proof fn lemma_differences_high(diffs: Seq<Val>, k: int, c1: int, c2: int, t: Seq<u32>)
    requires
        c1 >= 256,
        c2 >= 256,
    ensures
        differences_from(diffs, k, c1, t) == differences_from(diffs, k, c2, t),
    decreases diffs.len() - k,
{
    if 0 <= k < diffs.len() {
        match diffs[k] {
            Val::Integer(n) => {},
            Val::Name(name) => {
                lemma_differences_high(diffs, k + 1, c1 + 1, c2 + 1, t);
            },
            _ => {
                lemma_differences_high(diffs, k + 1, c1, c2, t);
            },
        }
    }
}

/// Set one differences glyph and advance to the next code.
pub fn place_difference(table: &mut [u32; 256], code: usize, name: &str) -> (r: usize)
    requires
        code < usize::MAX,
    ensures
        r == code + 1,
        final(table)@ == place_spec(old(table)@, code as int, name@),
{
    let g = glyph_to_unicode(name);
    if code < 256 {
        if let Some(c) = g {
            table[code] = c as u32;
        }
    }
    proof {
        if !(code < 256 && g is Some) {
            assert(table@ == place_spec(old(table)@, code as int, name@));
        } else {
            assert(table@ =~= place_spec(old(table)@, code as int, name@));
        }
    }
    code + 1
}

/// Apply a `/Differences` array: integers set the code, names set the glyph.
pub fn apply_differences(diffs: &[Object], table: &mut [u32; 256])
    ensures
        final(table)@ == differences_from(vals(diffs@), 0, 0, old(table)@),
{
    let ghost d = vals(diffs@);
    let mut code: usize = 0;
    let ghost mut gcode: int = 0;
    let mut k: usize = 0;
    while k < diffs.len()
        invariant
            d == vals(diffs@),
            k <= diffs@.len(),
            code <= 256,
            gcode >= 0,
            code == gcode || (code == 256 && gcode >= 256),
            differences_from(d, k as int, gcode, table@) == differences_from(d, 0, 0, old(table)@),
        decreases diffs@.len() - k,
    {
        let ghost before = table@;
        match &diffs[k] {
            Object::Integer(n) => {
                let n = *n;
                code = if n < 0 {
                    0
                } else if n >= 256 {
                    256
                } else {
                    n as usize
                };
                proof {
                    let c = if n < 0 { 0 } else { n as int };
                    if c >= 256 {
                        lemma_differences_high(d, k + 1, c, 256, table@);
                    }
                    gcode = c;
                }
            },
            Object::Name(name) => {
                proof {
                    if code == 256 {
                        lemma_differences_high(d, k + 1, gcode + 1, 257, place_spec(before, gcode, name@));
                        assert(place_spec(before, gcode, name@) == before);
                        assert(place_spec(before, 256, name@) == before);
                    }
                }
                let next = place_difference(table, code, name.as_str());
                code = if next > 256 { 256 } else { next };
                proof {
                    if next > 256 {
                        lemma_differences_high(d, k + 1, 257, gcode + 1, table@);
                    }
                    gcode = gcode + 1;
                }
            },
            _ => {},
        }
        k += 1;
    }
}

/// The base encoding name carried by an `/Encoding` value: the name itself, or
/// an encoding dictionary's `/BaseEncoding`.
pub open spec fn base_name_spec(enc: Option<Val>) -> Option<Seq<char>> {
    match enc {
        Some(Val::Name(n)) => Some(n),
        Some(Val::Dict(d)) => match crate::object::lookup(d, "BaseEncoding"@) {
            Some(Val::Name(n)) => Some(n),
            _ => None,
        },
        _ => None,
    }
}

/// The `/Differences` items of an encoding dictionary (or stream dictionary).
pub open spec fn differences_of(enc: Option<Val>) -> Option<Seq<Val>> {
    let d = match enc {
        Some(Val::Dict(d)) => Some(d),
        Some(Val::Stream(d, _)) => Some(d),
        _ => None,
    };
    match d {
        Some(d) => match crate::object::lookup(d, "Differences"@) {
            Some(Val::Array(items)) => Some(items),
            _ => None,
        },
        None => None,
    }
}

/// The byte → code point table an `/Encoding` value selects: its base encoding
/// with its `/Differences` applied.
pub open spec fn encoding_spec(enc: Option<Val>) -> Seq<u32> {
    let base = base_encoding_spec(base_name_spec(enc));
    match differences_of(enc) {
        Some(items) => differences_from(items, 0, 0, base),
        None => base,
    }
}

/// The base encoding name from a name or an encoding dictionary.
pub fn base_name(enc: &Option<Object>) -> (r: Option<String>)
    ensures
        match base_name_spec(match enc {
            Some(o) => Some(o@),
            None => None::<Val>,
        }) {
            Some(n) => r matches Some(s) && s@ == n,
            None => r is None,
        },
{
    match enc {
        Some(Object::Name(n)) => Some(n.clone()),
        Some(Object::Dictionary(d)) => match d.get("BaseEncoding") {
            Some(o) => match o.as_name() {
                Some(n) => Some(String::from_str(n)),
                None => None,
            },
            None => None,
        },
        _ => None,
    }
}

/// The byte → code point table of a simple font whose (resolved) `/Encoding`
/// value is `enc`.
pub fn encoding_table(enc: &Option<Object>) -> (r: [u32; 256])
    ensures
        r@ == encoding_spec(match enc {
            Some(o) => Some(o@),
            None => None::<Val>,
        }),
{
    let name = base_name(enc);
    let name_ref: Option<&str> = match &name {
        Some(s) => Some(s.as_str()),
        None => None,
    };
    let mut table: [u32; 256] = *base_encoding(name_ref);
    let ghost ev: Option<Val> = match enc {
        Some(o) => Some(o@),
        None => None::<Val>,
    };
    assert(table@ == base_encoding_spec(base_name_spec(ev)));
    if let Some(e) = enc {
        if let Some(d) = e.as_dict() {
            if let Some(o) = d.get("Differences") {
                if let Object::Array(diffs) = o {
                    proof {
                        crate::object::lemma_array_val(*diffs);
                    }
                    apply_differences(diffs.as_slice(), &mut table);
                    return table;
                }
            }
        }
    }
    assert(differences_of(ev) is None);
    table
}

// ---------------------------------------------------------------- widths

/// The values of a code → width-object map.
pub open spec fn num_map(m: Map<u32, Object>) -> Map<u32, Val> {
    Map::new(|k: u32| m.contains_key(k), |k: u32| m[k]@)
}

/// One width entry: a number stored for a code that fits a `u32`.
pub open spec fn width_entry(m: Map<u32, Val>, code: int, w: Val) -> Map<u32, Val> {
    if 0 <= code <= u32::MAX && is_number(w) {
        m.insert(code as u32, w)
    } else {
        m
    }
}

/// Widths listed from `start` on: `items[k]` for code `start + k`.
pub open spec fn list_widths_spec(m: Map<u32, Val>, start: int, items: Seq<Val>) -> Map<u32, Val>
    decreases items.len(),
{
    if items.len() == 0 {
        m
    } else {
        width_entry(
            list_widths_spec(m, start, items.drop_last()),
            start + items.len() - 1,
            items.last(),
        )
    }
}

/// One width for every code of `lo..=hi` (when it is a number).
pub open spec fn range_widths_spec(m: Map<u32, Val>, lo: int, hi: int, w: Val) -> Map<u32, Val> {
    if is_number(w) {
        Map::new(
            |k: u32| m.contains_key(k) || (lo <= k && k <= hi),
            |k: u32|
                if lo <= k && k <= hi {
                    w
                } else {
                    m[k]
                },
        )
    } else {
        m
    }
}

/// One `/W` run at index `i`: `c [w1 w2 …]` (consecutive codes from `c`) or
/// `cFirst cLast w` (one width across a range). Gives the index after the run
/// (at most the end) and the widths so far.
pub open spec fn cid_run_spec(w: Seq<Val>, i: int, m: Map<u32, Val>) -> (int, Map<u32, Val>) {
    if !(w[i] is Integer) || i + 1 >= w.len() {
        (w.len() as int, m)
    } else {
        let c = w[i]->Integer_0 as int;
        match w[i + 1] {
            Val::Array(list) => (
                if i + 2 < w.len() {
                    i + 2
                } else {
                    w.len() as int
                },
                list_widths_spec(m, c, list),
            ),
            second => (
                if i + 3 < w.len() {
                    i + 3
                } else {
                    w.len() as int
                },
                if i + 2 < w.len() && second is Integer {
                    range_widths_spec(m, c, second->Integer_0 as int, w[i + 2])
                } else {
                    m
                },
            ),
        }
    }
}

/// A CIDFont `/W` array read run by run from index `i`.
pub open spec fn cid_widths_from(w: Seq<Val>, i: int, m: Map<u32, Val>) -> Map<u32, Val>
    decreases w.len() - i,
{
    if i < 0 || i >= w.len() {
        m
    } else {
        let (j, m2) = cid_run_spec(w, i, m);
        if j <= i {
            m2
        } else {
            cid_widths_from(w, j, m2)
        }
    }
}

/// Store a number width for a code that fits a `u32`.
fn width_at(widths: &mut HashMap<u32, Object>, code: i128, w: &Object)
    ensures
        num_map(final(widths)@) == width_entry(num_map(old(widths)@), code as int, w@),
{
    if 0 <= code && code <= 0xFFFF_FFFF {
        match w {
            Object::Integer(_) | Object::Real(_) => {
                let k = code as u32;
                widths.insert(k, w.clone());
                proof {
                    assert(num_map(widths@) =~= num_map(old(widths)@).insert(k, w@));
                }
            },
            _ => {},
        }
    }
}

/// Store a width (a number object, thousandths of an em) for a code, when the
/// code fits a `u32` and the width is a number.
pub fn insert_width(widths: &mut HashMap<u32, Object>, code: i64, w: &Object)
    ensures
        num_map(final(widths)@) == width_entry(num_map(old(widths)@), code as int, w@),
{
    width_at(widths, code as i128, w);
}

/// Store `items[k]` as the width of code `start + k`, for every `k`.
pub fn fill_cid_list(widths: &mut HashMap<u32, Object>, start: i64, items: &[Object])
    ensures
        num_map(final(widths)@) == list_widths_spec(num_map(old(widths)@), start as int, vals(items@)),
{
    let mut k: usize = 0;
    while k < items.len()
        invariant
            k <= items@.len(),
            num_map(widths@) == list_widths_spec(
                num_map(old(widths)@),
                start as int,
                vals(items@).subrange(0, k as int),
            ),
        decreases items@.len() - k,
    {
        proof {
            let sub = vals(items@).subrange(0, k + 1);
            assert(sub.drop_last() =~= vals(items@).subrange(0, k as int));
            assert(sub.last() == items@[k as int]@);
        }
        width_at(widths, start as i128 + k as i128, &items[k]);
        k += 1;
    }
    assert(vals(items@).subrange(0, k as int) =~= vals(items@));
}

/// Store one width for every code of `first..=last`.
pub fn fill_cid_range(widths: &mut HashMap<u32, Object>, first: i64, last: i64, w: &Object)
    ensures
        num_map(final(widths)@) == range_widths_spec(num_map(old(widths)@), first as int, last as int, w@),
{
    let ghost m0 = num_map(old(widths)@);
    match w {
        Object::Integer(_) | Object::Real(_) => {},
        _ => {
            return;
        },
    }
    let lo: u64 = if first < 0 { 0 } else { first as u64 };
    let hi: i64 = if last > 0xFFFF_FFFF { 0xFFFF_FFFF } else { last };
    if hi < 0 || (lo as i128) > (hi as i128) {
        assert(range_widths_spec(m0, first as int, last as int, w@) =~= m0);
        return;
    }
    let hi: u64 = hi as u64;
    let mut code: u64 = lo;
    assert(range_widths_spec(m0, lo as int, lo - 1, w@) =~= m0);
    while code <= hi
        invariant
            lo <= code <= hi + 1,
            hi <= 0xFFFF_FFFF,
            is_number(w@),
            m0 == num_map(old(widths)@),
            num_map(widths@) == range_widths_spec(m0, lo as int, code - 1, w@),
        decreases hi + 1 - code,
    {
        let ghost before = num_map(widths@);
        width_at(widths, code as i128, w);
        proof {
            assert(num_map(widths@) =~= range_widths_spec(m0, lo as int, code as int, w@));
        }
        code += 1;
    }
    assert(num_map(widths@) =~= range_widths_spec(m0, first as int, last as int, w@));
}

/// Read one `/W` run (`c [w…]` or `cFirst cLast w`); return the next index.
pub fn read_cid_run(w: &[Object], i: usize, widths: &mut HashMap<u32, Object>) -> (r: usize)
    requires
        i < w@.len(),
    ensures
        (r as int, num_map(final(widths)@)) == cid_run_spec(vals(w@), i as int, num_map(old(widths)@)),
{
    let c = match w[i].as_integer() {
        Some(c) => c,
        None => {
            return w.len();
        },
    };
    if w.len() - i < 2 {
        return w.len();
    }
    match &w[i + 1] {
        Object::Array(list) => {
            proof {
                crate::object::lemma_array_val(*list);
            }
            fill_cid_list(widths, c, list.as_slice());
            if w.len() - i > 2 {
                i + 2
            } else {
                w.len()
            }
        },
        second => {
            if w.len() - i > 2 {
                if let Some(last) = second.as_integer() {
                    fill_cid_range(widths, c, last, &w[i + 2]);
                }
            }
            if w.len() - i > 3 {
                i + 3
            } else {
                w.len()
            }
        },
    }
}

/// Parse a CIDFont `/W` width array into a code → width map.
pub fn cid_widths_of(w: &[Object]) -> (r: HashMap<u32, Object>)
    ensures
        num_map(r@) == cid_widths_from(vals(w@), 0, Map::empty()),
{
    let mut widths: HashMap<u32, Object> = HashMap::new();
    let mut i: usize = 0;
    assert(num_map(widths@) =~= Map::<u32, Val>::empty());
    while i < w.len()
        invariant
            i <= w@.len(),
            cid_widths_from(vals(w@), i as int, num_map(widths@)) == cid_widths_from(
                vals(w@),
                0,
                Map::empty(),
            ),
        decreases w@.len() - i,
    {
        i = read_cid_run(w, i, &mut widths);
    }
    widths
}

/// Widths listed from code `first` on (a simple font's `/Widths`).
pub fn list_widths(first: i64, items: &[Object]) -> (r: HashMap<u32, Object>)
    ensures
        num_map(r@) == list_widths_spec(Map::empty(), first as int, vals(items@)),
{
    let mut widths: HashMap<u32, Object> = HashMap::new();
    assert(num_map(widths@) =~= Map::<u32, Val>::empty());
    fill_cid_list(&mut widths, first, items);
    widths
}

// ---------------------------------------------------------------- loading

/// The content of a font.
pub struct FontView {
    pub two_byte: bool,
    pub enc: Seq<u32>,
    pub cmap: Option<CMapState>,
    pub widths: Map<u32, Val>,
    pub default_width: Val,
    pub family: PuaFamily,
}

impl Font {
    /// The content of this font.
    pub open spec fn font_view(&self) -> FontView {
        FontView {
            two_byte: self.is_two_byte(),
            enc: self.encoding(),
            cmap: self.cmap(),
            widths: self.width_map(),
            default_width: self.default_width_val(),
            family: self.family(),
        }
    }
}

/// A dictionary entry resolved to an array.
pub open spec fn resolve_array_spec(r: Resolver, d: Seq<(Seq<char>, Val)>, key: Seq<char>) -> Option<Seq<Val>> {
    match lookup(d, key) {
        Some(v) => match r.spec_resolve(v) {
            Ok(Val::Array(items)) => Some(items),
            _ => None,
        },
        None => None,
    }
}

/// The `/ToUnicode` CMap: the stream resolved, decoded and parsed.
pub open spec fn to_unicode_spec(r: Resolver, d: Seq<(Seq<char>, Val)>) -> Option<CMapState> {
    match lookup(d, "ToUnicode"@) {
        Some(v) => match r.spec_resolve(v) {
            Ok(Val::Stream(sd, raw)) => match decode_stream_spec(sd, raw) {
                Ok(b) => Some(parse_spec(b)),
                Err(_) => None,
            },
            _ => None,
        },
        None => None,
    }
}

/// The resolved `/Encoding` value, when it resolves.
pub open spec fn encoding_value(r: Resolver, d: Seq<(Seq<char>, Val)>) -> Option<Val> {
    match lookup(d, "Encoding"@) {
        Some(e) => match r.spec_resolve(e) {
            Ok(v) => Some(v),
            Err(_) => None,
        },
        None => None,
    }
}

/// A simple font's `/Widths`, indexed from `/FirstChar` (0 when absent).
pub open spec fn simple_widths_spec(r: Resolver, d: Seq<(Seq<char>, Val)>) -> Map<u32, Val> {
    let first = match lookup(d, "FirstChar"@) {
        Some(Val::Integer(n)) => n as int,
        _ => 0,
    };
    match resolve_array_spec(r, d, "Widths"@) {
        Some(items) => list_widths_spec(Map::empty(), first, items),
        None => Map::empty(),
    }
}

/// The first descendant CIDFont dictionary of a Type0 font.
pub open spec fn descendant_spec(r: Resolver, d: Seq<(Seq<char>, Val)>) -> Option<Seq<(Seq<char>, Val)>> {
    match resolve_array_spec(r, d, "DescendantFonts"@) {
        Some(items) => if items.len() > 0 {
            match dict_res(r, items[0]) {
                Ok(dd) => Some(dd),
                Err(_) => None,
            }
        } else {
            None
        },
        None => None,
    }
}

/// A CIDFont's `/W` widths.
pub open spec fn cid_widths_spec(r: Resolver, dd: Seq<(Seq<char>, Val)>) -> Map<u32, Val> {
    match resolve_array_spec(r, dd, "W"@) {
        Some(w) => cid_widths_from(w, 0, Map::empty()),
        None => Map::empty(),
    }
}

/// The index of the last `+` before index `i`, or -1.
pub open spec fn plus_before(n: Seq<char>, i: int) -> int
    decreases i,
{
    if i <= 0 || i > n.len() {
        -1
    } else if n[i - 1] == '+' {
        i - 1
    } else {
        plus_before(n, i - 1)
    }
}

/// A font name without its subset prefix: the part after the last `+`.
pub open spec fn unsubset(n: Seq<char>) -> Seq<char> {
    n.subrange(plus_before(n, n.len() as int) + 1, n.len() as int)
}

/// The private-use-area family named by `/BaseFont`.
pub open spec fn pua_family_spec(d: Seq<(Seq<char>, Val)>) -> PuaFamily {
    match lookup(d, "BaseFont"@) {
        Some(Val::Name(n)) => {
            let b = unsubset(n);
            if b == "Symbol"@ || b == "SymbolMT"@ {
                PuaFamily::Symbol
            } else if b == "MT-Extra"@ {
                PuaFamily::MTextra
            } else {
                PuaFamily::Plain
            }
        },
        _ => PuaFamily::Plain,
    }
}

proof fn lemma_plus_before_bounds(n: Seq<char>, i: int)
    requires
        0 <= i <= n.len(),
    ensures
        -1 <= plus_before(n, i) < i,
    decreases i,
{
    if i > 0 && n[i - 1] != '+' {
        lemma_plus_before_bounds(n, i - 1);
    }
}

/// Classify a font by its `/BaseFont` (subset prefix ignored).
fn pua_family(dict: &Dictionary) -> (r: PuaFamily)
    ensures
        r == pua_family_spec(dict@),
{
    let name = match dict.get("BaseFont") {
        Some(Object::Name(n)) => n,
        _ => return PuaFamily::Plain,
    };
    let len = name.unicode_len();
    let mut i: usize = len;
    while i > 0 && name.get_char(i - 1) != '+'
        invariant
            i <= len,
            len == name@.len(),
            plus_before(name@, len as int) == plus_before(name@, i as int),
        decreases i,
    {
        i -= 1;
    }
    proof {
        lemma_plus_before_bounds(name@, len as int);
        if i > 0 {
            assert(plus_before(name@, i as int) == i - 1);
        }
    }
    let base = name.substring_char(i, len);
    if crate::object::str_eq(base, "Symbol") || crate::object::str_eq(base, "SymbolMT") {
        PuaFamily::Symbol
    } else if crate::object::str_eq(base, "MT-Extra") {
        PuaFamily::MTextra
    } else {
        PuaFamily::Plain
    }
}

/// The font a font dictionary describes.
pub open spec fn font_spec(r: Resolver, d: Seq<(Seq<char>, Val)>) -> FontView {
    if lookup(d, "Subtype"@) == Some(Val::Name("Type0"@)) {
        let desc = descendant_spec(r, d);
        FontView {
            two_byte: true,
            enc: Seq::new(256, |i: int| 0u32),
            cmap: to_unicode_spec(r, d),
            widths: match desc {
                Some(dd) => cid_widths_spec(r, dd),
                None => Map::empty(),
            },
            default_width: match desc {
                Some(dd) => match lookup(dd, "DW"@) {
                    Some(v) => if is_number(v) {
                        v
                    } else {
                        Val::Integer(1000)
                    },
                    None => Val::Integer(1000),
                },
                None => Val::Integer(1000),
            },
            family: pua_family_spec(d),
        }
    } else {
        FontView {
            two_byte: false,
            enc: encoding_spec(encoding_value(r, d)),
            cmap: to_unicode_spec(r, d),
            widths: simple_widths_spec(r, d),
            default_width: Val::Integer(500),
            family: pua_family_spec(d),
        }
    }
}

/// Resolve a dictionary entry to an array (following an indirect reference).
fn resolve_array(r: &Resolver, dict: &Dictionary, key: &str) -> (o: Option<Vec<Object>>)
    ensures
        match resolve_array_spec(*r, dict@, key@) {
            Some(items) => o matches Some(v) && vals(v@) == items,
            None => o is None,
        },
{
    let v = match dict.get(key) {
        Some(v) => v,
        None => return None,
    };
    match r.resolve(v) {
        Ok(Object::Array(items)) => {
            proof {
                crate::object::lemma_array_val(items);
            }
            Some(items)
        },
        _ => None,
    }
}

/// Parse the `/ToUnicode` CMap stream, if present.
fn load_to_unicode(r: &Resolver, dict: &Dictionary) -> (o: Option<CMap>)
    ensures
        match to_unicode_spec(*r, dict@) {
            Some(st) => o matches Some(c) && c.state() == st,
            None => o is None,
        },
{
    let v = match dict.get("ToUnicode") {
        Some(v) => v,
        None => return None,
    };
    let obj = match r.resolve(v) {
        Ok(o) => o,
        Err(_) => return None,
    };
    match obj {
        Object::Stream(s) => match decode_stream(&s.dict, s.data.as_slice()) {
            Ok(data) => Some(CMap::parse(data.as_slice())),
            Err(_) => None,
        },
        _ => None,
    }
}

/// Resolve the byte → code point table from `/Encoding` (+ `/Differences`).
fn build_encoding(r: &Resolver, dict: &Dictionary) -> (t: [u32; 256])
    ensures
        t@ == encoding_spec(encoding_value(*r, dict@)),
{
    let enc: Option<Object> = match dict.get("Encoding") {
        Some(e) => match r.resolve(e) {
            Ok(v) => Some(v),
            Err(_) => None,
        },
        None => None,
    };
    encoding_table(&enc)
}

/// Read a simple font's `/Widths` (indexed from `/FirstChar`).
fn simple_widths(r: &Resolver, dict: &Dictionary) -> (w: HashMap<u32, Object>)
    ensures
        num_map(w@) == simple_widths_spec(*r, dict@),
{
    let first: i64 = match dict.get("FirstChar") {
        Some(o) => match o.as_integer() {
            Some(n) => n,
            None => 0,
        },
        None => 0,
    };
    match resolve_array(r, dict, "Widths") {
        Some(arr) => list_widths(first, arr.as_slice()),
        None => {
            let m: HashMap<u32, Object> = HashMap::new();
            assert(num_map(m@) =~= Map::<u32, Val>::empty());
            m
        },
    }
}

/// Parse a CIDFont `/W` width array into a code → width map.
fn cid_widths(r: &Resolver, dict: &Dictionary) -> (w: HashMap<u32, Object>)
    ensures
        num_map(w@) == cid_widths_spec(*r, dict@),
{
    match resolve_array(r, dict, "W") {
        Some(arr) => cid_widths_of(arr.as_slice()),
        None => {
            let m: HashMap<u32, Object> = HashMap::new();
            assert(num_map(m@) =~= Map::<u32, Val>::empty());
            m
        },
    }
}

/// The first descendant CIDFont dictionary of a Type0 font.
fn descendant_font(r: &Resolver, dict: &Dictionary) -> (o: Option<Dictionary>)
    ensures
        match descendant_spec(*r, dict@) {
            Some(dd) => o matches Some(d) && d@ == dd,
            None => o is None,
        },
{
    let arr = match resolve_array(r, dict, "DescendantFonts") {
        Some(a) => a,
        None => return None,
    };
    if arr.len() == 0 {
        return None;
    }
    match r.resolve_dict(&arr[0]) {
        Ok(d) => Some(d),
        Err(_) => None,
    }
}

/// Build a simple (1-byte) font: base encoding + differences + `/Widths`.
fn load_simple(r: &Resolver, dict: &Dictionary, to_unicode: Option<CMap>, family: PuaFamily) -> (f: Font)
    ensures
        f.font_view() == (FontView {
            two_byte: false,
            enc: encoding_spec(encoding_value(*r, dict@)),
            cmap: match to_unicode {
                Some(c) => Some(c.state()),
                None => None,
            },
            widths: simple_widths_spec(*r, dict@),
            default_width: Val::Integer(500),
            family,
        }),
{
    let simple_enc = build_encoding(r, dict);
    let widths = simple_widths(r, dict);
    Font::simple(to_unicode, simple_enc, widths, family)
}

/// Build a Type0 (2-byte CID) font: descendant CID widths + `/DW`.
fn load_type0(r: &Resolver, dict: &Dictionary, to_unicode: Option<CMap>, family: PuaFamily) -> (f: Font)
    ensures
        ({
            let desc = descendant_spec(*r, dict@);
            f.font_view() == (FontView {
                two_byte: true,
                enc: Seq::new(256, |i: int| 0u32),
                cmap: match to_unicode {
                    Some(c) => Some(c.state()),
                    None => None,
                },
                widths: match desc {
                    Some(dd) => cid_widths_spec(*r, dd),
                    None => Map::empty(),
                },
                default_width: match desc {
                    Some(dd) => match lookup(dd, "DW"@) {
                        Some(v) => if is_number(v) {
                            v
                        } else {
                            Val::Integer(1000)
                        },
                        None => Val::Integer(1000),
                    },
                    None => Val::Integer(1000),
                },
                family,
            })
        }),
{
    let descendant = descendant_font(r, dict);
    match descendant {
        Some(d) => {
            let widths = cid_widths(r, &d);
            Font::type0(to_unicode, widths, d.get("DW"), family)
        },
        None => {
            let m: HashMap<u32, Object> = HashMap::new();
            assert(num_map(m@) =~= Map::<u32, Val>::empty());
            Font::type0(to_unicode, m, None, family)
        },
    }
}

/// Build a [`Font`] from its dictionary.
pub fn load_font(r: &Resolver, dict: &Dictionary) -> (f: Font)
    ensures
        f.font_view() == font_spec(*r, dict@),
{
    let to_unicode = load_to_unicode(r, dict);
    let family = pua_family(dict);
    let is_type0 = match dict.get("Subtype") {
        Some(o) => match o.as_name() {
            Some(n) => crate::object::str_eq(n, "Type0"),
            None => false,
        },
        None => false,
    };
    if is_type0 {
        load_type0(r, dict, to_unicode, family)
    } else {
        load_simple(r, dict, to_unicode, family)
    }
}

/// The fonts of a `/Font` resource dictionary's entries, in order: each
/// entry that resolves to a dictionary, under its name.
pub open spec fn fonts_from(r: Resolver, entries: Seq<(Seq<char>, Val)>) -> Seq<(Seq<char>, FontView)>
    decreases entries.len(),
{
    if entries.len() == 0 {
        seq![]
    } else {
        let rest = fonts_from(r, entries.drop_last());
        match dict_res(r, entries.last().1) {
            Ok(d) => rest.push((entries.last().0, font_spec(r, d))),
            Err(_) => rest,
        }
    }
}

/// The fonts of a page's `/Resources`.
pub open spec fn fonts_spec(r: Resolver, resources: Seq<(Seq<char>, Val)>) -> Seq<(Seq<char>, FontView)> {
    match lookup(resources, "Font"@) {
        Some(f) => match dict_res(r, f) {
            Ok(fd) => fonts_from(r, fd),
            Err(_) => seq![],
        },
        None => seq![],
    }
}

/// A font resource name → [`Font`] map for one page (names are distinct: they
/// are the keys of the `/Font` dictionary).
pub struct FontMap {
    entries: Vec<(String, Font)>,
}

impl View for FontMap {
    type V = Seq<(Seq<char>, FontView)>;

    closed spec fn view(&self) -> Seq<(Seq<char>, FontView)> {
        self.entries@.map_values(|e: (String, Font)| (e.0@, e.1.font_view()))
    }
}

/// The first font named `name`.
pub open spec fn font_named(m: Seq<(Seq<char>, FontView)>, name: Seq<char>) -> Option<FontView>
    decreases m.len(),
{
    if m.len() == 0 {
        None
    } else if m[0].0 == name {
        Some(m[0].1)
    } else {
        font_named(m.drop_first(), name)
    }
}

impl FontMap {
    /// The font under a resource name.
    pub fn get(&self, name: &str) -> (r: Option<&Font>)
        ensures
            match font_named(self@, name@) {
                Some(v) => r matches Some(f) && f.font_view() == v,
                None => r is None,
            },
    {
        let mut k: usize = 0;
        assert(self@.subrange(0, self@.len() as int) =~= self@);
        while k < self.entries.len()
            invariant
                k <= self.entries@.len(),
                font_named(self@, name@) == font_named(self@.subrange(k as int, self@.len() as int), name@),
            decreases self.entries@.len() - k,
        {
            let ghost rest = self@.subrange(k as int, self@.len() as int);
            proof {
                assert(rest.drop_first() =~= self@.subrange(k + 1, self@.len() as int));
                assert(rest[0] == (self.entries@[k as int].0@, self.entries@[k as int].1.font_view()));
            }
            if crate::object::str_eq(self.entries[k].0.as_str(), name) {
                return Some(&self.entries[k].1);
            }
            k += 1;
        }
        None
    }

    /// The number of fonts.
    pub fn len(&self) -> (r: usize)
        ensures
            r == self@.len(),
    {
        self.entries.len()
    }

    /// True when the page has no fonts.
    pub fn is_empty(&self) -> (r: bool)
        ensures
            r == (self@.len() == 0),
    {
        self.entries.len() == 0
    }
}

/// Load every font in a page's `/Resources /Font` dictionary.
pub fn load_fonts(r: &Resolver, resources: &Dictionary) -> (m: FontMap)
    ensures
        m@ == fonts_spec(*r, resources@),
{
    let mut map = FontMap { entries: Vec::new() };
    assert(map@ =~= Seq::<(Seq<char>, FontView)>::empty());
    let f = match resources.get("Font") {
        Some(f) => f,
        None => return map,
    };
    let fonts = match r.resolve_dict(f) {
        Ok(d) => d,
        Err(_) => return map,
    };
    let items = fonts.iter();
    let mut k: usize = 0;
    while k < items.len()
        invariant
            k <= items@.len(),
            items@.len() == fonts@.len(),
            forall|i: int|
                0 <= i < items@.len() ==> (#[trigger] items@[i]).0@ == fonts@[i].0 && items@[i].1@ == fonts@[i].1,
            map@ == fonts_from(*r, fonts@.subrange(0, k as int)),
        decreases items@.len() - k,
    {
        proof {
            assert(fonts@.subrange(0, k + 1).drop_last() =~= fonts@.subrange(0, k as int));
        }
        insert_font(r, &mut map, items[k].0.as_str(), &items[k].1);
        k += 1;
    }
    assert(fonts@.subrange(0, k as int) =~= fonts@);
    map
}

/// Resolve one font dictionary and add it to the map.
fn insert_font(r: &Resolver, map: &mut FontMap, name: &str, value: &Object)
    ensures
        final(map)@ == match dict_res(*r, value@) {
            Ok(d) => old(map)@.push((name@, font_spec(*r, d))),
            Err(_) => old(map)@,
        },
{
    if let Ok(dict) = r.resolve_dict(value) {
        let f = load_font(r, &dict);
        let ghost before = map@;
        map.entries.push((String::from_str(name), f));
        assert(map@ =~= before.push((name@, font_spec(*r, dict@))));
    }
}

} // verus!

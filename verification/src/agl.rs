//! Glyph-name and base-encoding tables (Adobe Glyph List subset + the standard
//! simple-font encodings).
//!
//! Simple fonts map a single byte to a glyph *name* via a base encoding
//! (`WinAnsiEncoding`, `MacRomanEncoding`, `StandardEncoding`) plus a
//! `/Differences` override; the glyph name maps to Unicode through the Adobe
//! Glyph List ([`glyph_to_unicode`]). The base encodings are kept as direct
//! byte→codepoint tables (`0` = undefined).

use vstd::prelude::*;
use vstd::string::StrSliceExecFns;

use crate::object::str_eq;

verus! {

pub const WIN_ANSI: [u32; 256] = [
    0, 1, 2, 3, 4, 5, 6, 7,
    8, 9, 10, 11, 12, 13, 14, 15,
    16, 17, 18, 19, 20, 21, 22, 23,
    24, 25, 26, 27, 28, 29, 30, 31,
    32, 33, 34, 35, 36, 37, 38, 39,
    40, 41, 42, 43, 44, 45, 46, 47,
    48, 49, 50, 51, 52, 53, 54, 55,
    56, 57, 58, 59, 60, 61, 62, 63,
    64, 65, 66, 67, 68, 69, 70, 71,
    72, 73, 74, 75, 76, 77, 78, 79,
    80, 81, 82, 83, 84, 85, 86, 87,
    88, 89, 90, 91, 92, 93, 94, 95,
    96, 97, 98, 99, 100, 101, 102, 103,
    104, 105, 106, 107, 108, 109, 110, 111,
    112, 113, 114, 115, 116, 117, 118, 119,
    120, 121, 122, 123, 124, 125, 126, 127,
    8364, 0, 8218, 402, 8222, 8230, 8224, 8225,
    710, 8240, 352, 8249, 338, 0, 381, 0,
    0, 8216, 8217, 8220, 8221, 8226, 8211, 8212,
    732, 8482, 353, 8250, 339, 0, 382, 376,
    160, 161, 162, 163, 164, 165, 166, 167,
    168, 169, 170, 171, 172, 173, 174, 175,
    176, 177, 178, 179, 180, 181, 182, 183,
    184, 185, 186, 187, 188, 189, 190, 191,
    192, 193, 194, 195, 196, 197, 198, 199,
    200, 201, 202, 203, 204, 205, 206, 207,
    208, 209, 210, 211, 212, 213, 214, 215,
    216, 217, 218, 219, 220, 221, 222, 223,
    224, 225, 226, 227, 228, 229, 230, 231,
    232, 233, 234, 235, 236, 237, 238, 239,
    240, 241, 242, 243, 244, 245, 246, 247,
    248, 249, 250, 251, 252, 253, 254, 255,
];

pub const MAC_ROMAN: [u32; 256] = [
    0, 1, 2, 3, 4, 5, 6, 7,
    8, 9, 10, 11, 12, 13, 14, 15,
    16, 17, 18, 19, 20, 21, 22, 23,
    24, 25, 26, 27, 28, 29, 30, 31,
    32, 33, 34, 35, 36, 37, 38, 39,
    40, 41, 42, 43, 44, 45, 46, 47,
    48, 49, 50, 51, 52, 53, 54, 55,
    56, 57, 58, 59, 60, 61, 62, 63,
    64, 65, 66, 67, 68, 69, 70, 71,
    72, 73, 74, 75, 76, 77, 78, 79,
    80, 81, 82, 83, 84, 85, 86, 87,
    88, 89, 90, 91, 92, 93, 94, 95,
    96, 97, 98, 99, 100, 101, 102, 103,
    104, 105, 106, 107, 108, 109, 110, 111,
    112, 113, 114, 115, 116, 117, 118, 119,
    120, 121, 122, 123, 124, 125, 126, 127,
    196, 197, 199, 201, 209, 214, 220, 225,
    224, 226, 228, 227, 229, 231, 233, 232,
    234, 235, 237, 236, 238, 239, 241, 243,
    242, 244, 246, 245, 250, 249, 251, 252,
    8224, 176, 162, 163, 167, 8226, 182, 223,
    174, 169, 8482, 180, 168, 8800, 198, 216,
    8734, 177, 8804, 8805, 165, 181, 8706, 8721,
    8719, 960, 8747, 170, 186, 937, 230, 248,
    191, 161, 172, 8730, 402, 8776, 8710, 171,
    187, 8230, 160, 192, 195, 213, 338, 339,
    8211, 8212, 8220, 8221, 8216, 8217, 247, 9674,
    255, 376, 8260, 8364, 8249, 8250, 64257, 64258,
    8225, 183, 8218, 8222, 8240, 194, 202, 193,
    203, 200, 205, 206, 207, 204, 211, 212,
    63743, 210, 218, 219, 217, 305, 710, 732,
    175, 728, 729, 730, 184, 733, 731, 711,
];

pub const STANDARD: [u32; 256] = [
    0, 0, 0, 0, 0, 0, 0, 0,
    0, 0, 0, 0, 0, 0, 0, 0,
    0, 0, 0, 0, 0, 0, 0, 0,
    0, 0, 0, 0, 0, 0, 0, 0,
    32, 33, 34, 35, 36, 37, 38, 8217,
    40, 41, 42, 43, 44, 45, 46, 47,
    48, 49, 50, 51, 52, 53, 54, 55,
    56, 57, 58, 59, 60, 61, 62, 63,
    64, 65, 66, 67, 68, 69, 70, 71,
    72, 73, 74, 75, 76, 77, 78, 79,
    80, 81, 82, 83, 84, 85, 86, 87,
    88, 89, 90, 91, 92, 93, 94, 95,
    8216, 97, 98, 99, 100, 101, 102, 103,
    104, 105, 106, 107, 108, 109, 110, 111,
    112, 113, 114, 115, 116, 117, 118, 119,
    120, 121, 122, 123, 124, 125, 126, 0,
    0, 0, 0, 0, 0, 0, 0, 0,
    0, 0, 0, 0, 0, 0, 0, 0,
    0, 0, 0, 0, 0, 0, 0, 0,
    0, 0, 0, 0, 0, 0, 0, 0,
    0, 0, 0, 0, 0, 0, 0, 0,
    0, 0, 0, 0, 0, 0, 0, 0,
    0, 0, 0, 0, 0, 0, 0, 0,
    0, 0, 0, 0, 0, 0, 0, 0,
    0, 0, 0, 0, 0, 0, 0, 0,
    0, 0, 0, 0, 0, 0, 0, 0,
    0, 0, 0, 0, 0, 0, 0, 0,
    0, 0, 0, 0, 0, 0, 0, 0,
    0, 0, 0, 0, 0, 0, 0, 0,
    0, 0, 0, 0, 0, 0, 0, 0,
    0, 0, 0, 0, 0, 0, 0, 0,
    0, 0, 0, 0, 0, 0, 0, 0,
];

pub const AGL: [(&'static str, u32); 164] = [
    ("A", 0x0041), ("AE", 0x00C6), ("B", 0x0042), ("C", 0x0043), ("D", 0x0044),
    ("E", 0x0045), ("F", 0x0046), ("G", 0x0047), ("H", 0x0048), ("I", 0x0049),
    ("J", 0x004A), ("K", 0x004B), ("L", 0x004C), ("M", 0x004D), ("N", 0x004E),
    ("O", 0x004F), ("Oslash", 0x00D8), ("P", 0x0050), ("Q", 0x0051), ("R", 0x0052),
    ("S", 0x0053), ("T", 0x0054), ("U", 0x0055), ("V", 0x0056), ("W", 0x0057),
    ("X", 0x0058), ("Y", 0x0059), ("Z", 0x005A), ("a", 0x0061), ("aacute", 0x00E1),
    ("adieresis", 0x00E4), ("ae", 0x00E6), ("agrave", 0x00E0), ("ampersand", 0x0026),
    ("asciicircum", 0x005E), ("asciitilde", 0x007E), ("asterisk", 0x002A), ("at", 0x0040),
    ("b", 0x0062), ("backslash", 0x005C), ("bar", 0x007C), ("braceleft", 0x007B),
    ("braceright", 0x007D), ("bracketleft", 0x005B), ("bracketright", 0x005D),
    ("bullet", 0x2022), ("c", 0x0063), ("ccedilla", 0x00E7), ("cent", 0x00A2),
    ("colon", 0x003A), ("comma", 0x002C), ("copyright", 0x00A9), ("d", 0x0064),
    ("dagger", 0x2020), ("daggerdbl", 0x2021), ("degree", 0x00B0), ("divide", 0x00F7),
    ("dollar", 0x0024), ("e", 0x0065), ("eacute", 0x00E9), ("edieresis", 0x00EB),
    ("egrave", 0x00E8), ("eight", 0x0038), ("element", 0x2208), ("ellipsis", 0x2026), ("emdash", 0x2014),
    ("endash", 0x2013), ("equal", 0x003D), ("euro", 0x20AC), ("exclam", 0x0021),
    ("f", 0x0066), ("ff", 0xFB00), ("ffi", 0xFB03), ("ffl", 0xFB04), ("fi", 0xFB01),
    ("five", 0x0035), ("fl", 0xFB02), ("florin", 0x0192), ("fraction", 0x2044), ("four", 0x0034), ("g", 0x0067),
    ("germandbls", 0x00DF), ("grave", 0x0060), ("greater", 0x003E), ("greaterequal", 0x2265), ("guilsinglleft", 0x2039),
    ("guilsinglright", 0x203A), ("h", 0x0068), ("hyphen", 0x002D), ("i", 0x0069),
    ("iacute", 0x00ED), ("imaginaryunit", 0x2148), ("infinity", 0x221E), ("integral", 0x222B), ("intersection", 0x2229), ("j", 0x006A), ("k", 0x006B), ("l", 0x006C), ("less", 0x003C), ("lessequal", 0x2264),
    ("m", 0x006D), ("minus", 0x2212), ("multiply", 0x00D7), ("n", 0x006E),
    ("nbspace", 0x00A0), ("nine", 0x0039), ("notequal", 0x2260), ("ntilde", 0x00F1), ("numbersign", 0x0023),
    ("o", 0x006F), ("oacute", 0x00F3), ("odieresis", 0x00F6), ("one", 0x0031),
    ("oslash", 0x00F8), ("p", 0x0070), ("paragraph", 0x00B6), ("parenleft", 0x0028), ("parenleftinferior", 0x208D),
    ("parenright", 0x0029), ("parenrightinferior", 0x208E), ("percent", 0x0025), ("period", 0x002E), ("periodcentered", 0x00B7),
    ("perthousand", 0x2030), ("plus", 0x002B), ("product", 0x220F), ("q", 0x0071), ("question", 0x003F),
    ("quotedbl", 0x0022), ("quotedblbase", 0x201E), ("quotedblleft", 0x201C),
    ("quotedblright", 0x201D), ("quoteleft", 0x2018), ("quoteright", 0x2019),
    ("quotesinglbase", 0x201A), ("quotesingle", 0x0027), ("r", 0x0072), ("radical", 0x221A), ("registered", 0x00AE),
    ("s", 0x0073), ("section", 0x00A7), ("semicolon", 0x003B), ("seven", 0x0037),
    ("six", 0x0036), ("slash", 0x002F), ("space", 0x0020), ("sterling", 0x00A3), ("summation", 0x2211),
    ("t", 0x0074), ("three", 0x0033), ("trademark", 0x2122), ("two", 0x0032), ("u", 0x0075),
    ("uacute", 0x00FA), ("udieresis", 0x00FC), ("underscore", 0x005F), ("union", 0x222A), ("v", 0x0076),
    ("w", 0x0077), ("x", 0x0078), ("y", 0x0079), ("yen", 0x00A5), ("z", 0x007A),
    ("zero", 0x0030),
];


/// The character with scalar value `cp`, when `cp` is a Unicode scalar value.
pub open spec fn char_of(cp: u32) -> Option<char> {
    if cp < 0xD800 || (0xE000 <= cp && cp <= 0x10FFFF) {
        Some(cp as char)
    } else {
        None
    }
}

/// `char::from_u32` (std). Claimed, as its documentation states: `Some` of
/// that character exactly when `cp` is a Unicode scalar value (not a
/// surrogate, at most 0x10FFFF).
#[verifier::external_body]
pub(crate) fn char_from_u32(cp: u32) -> (r: Option<char>)
    ensures
        r == char_of(cp),
{
    char::from_u32(cp)
}

/// The table a `/BaseEncoding` name selects (WinAnsi by default).
pub open spec fn base_encoding_spec(name: Option<Seq<char>>) -> Seq<u32> {
    if name == Some("MacRomanEncoding"@) {
        MAC_ROMAN@
    } else if name == Some("StandardEncoding"@) {
        STANDARD@
    } else {
        WIN_ANSI@
    }
}

/// The base encoding table for a `/BaseEncoding` / `/Encoding` name (defaults to
/// WinAnsi, the most common simple-font encoding).
pub fn base_encoding(name: Option<&str>) -> (r: &'static [u32; 256])
    ensures
        r@ == base_encoding_spec(match name {
            Some(n) => Some(n@),
            None => None,
        }),
{
    match name {
        Some(n) => {
            if str_eq(n, "MacRomanEncoding") {
                &MAC_ROMAN
            } else if str_eq(n, "StandardEncoding") {
                &STANDARD
            } else {
                &WIN_ANSI
            }
        },
        None => &WIN_ANSI,
    }
}

/// A codepoint table entry as a `char` (`0` entries are undefined).
pub fn table_char(table: &[u32; 256], code: u8) -> (r: Option<char>)
    ensures
        r == (if table@[code as int] == 0 {
            None
        } else {
            char_of(table@[code as int])
        }),
{
    let cp = table[code as usize];
    if cp == 0 {
        None
    } else {
        char_from_u32(cp)
    }
}

/// The index of the first `.` of `s` at or after `i`, or its length.
pub open spec fn first_dot_from(s: Seq<char>, i: int) -> int
    decreases s.len() - i,
{
    if i < 0 || i >= s.len() {
        s.len() as int
    } else if s[i] == '.' {
        i
    } else {
        first_dot_from(s, i + 1)
    }
}

/// The entry of the glyph list named `name`, from entry `k` on.
pub open spec fn agl_from(name: Seq<char>, k: int) -> Option<char>
    decreases 164 - k,
{
    if k < 0 || k >= 164 {
        None
    } else if AGL@[k].0@ == name {
        char_of(AGL@[k].1)
    } else {
        agl_from(name, k + 1)
    }
}

/// The value of a hexadecimal digit.
pub open spec fn hex_digit(c: char) -> Option<int> {
    if '0' <= c <= '9' {
        Some(c as int - '0' as int)
    } else if 'a' <= c <= 'f' {
        Some(c as int - 'a' as int + 10)
    } else if 'A' <= c <= 'F' {
        Some(c as int - 'A' as int + 10)
    } else {
        None
    }
}

/// The value of a run of hexadecimal digits (all of `s`).
pub open spec fn hex_digits_value(s: Seq<char>) -> Option<int>
    decreases s.len(),
{
    if s.len() == 0 {
        Some(0)
    } else {
        match (hex_digits_value(s.drop_last()), hex_digit(s.last())) {
            (Some(v), Some(d)) => Some(v * 16 + d),
            _ => None,
        }
    }
}

/// Base-16 text as `u32::from_str_radix` reads it: an optional `+`, then at
/// least one hexadecimal digit.
pub open spec fn parse_hex_spec(s: Seq<char>) -> Option<int> {
    let digits = if s.len() > 0 && s[0] == '+' {
        s.subrange(1, s.len() as int)
    } else {
        s
    };
    if digits.len() == 0 {
        None
    } else {
        hex_digits_value(digits)
    }
}

/// The character named by hexadecimal text, when it is a scalar value.
pub open spec fn from_hex_spec(s: Seq<char>) -> Option<char> {
    match parse_hex_spec(s) {
        Some(v) => if v <= u32::MAX {
            char_of(v as u32)
        } else {
            None
        },
        None => None,
    }
}

/// `uniXXXX` (one BMP scalar from the four characters after `uni`) and
/// `uXXXX`..`uXXXXXX` glyph names.
pub open spec fn uni_form_spec(s: Seq<char>) -> Option<char> {
    if s.len() >= 3 && s[0] == 'u' && s[1] == 'n' && s[2] == 'i' {
        if s.len() >= 7 {
            from_hex_spec(s.subrange(3, 7))
        } else {
            None
        }
    } else if s.len() >= 1 && s[0] == 'u' && 5 <= s.len() <= 7 {
        from_hex_spec(s.subrange(1, s.len() as int))
    } else {
        None
    }
}

/// A glyph name's character: the part before any `.variant` suffix, looked up
/// in the glyph list, else read as a `uniXXXX` / `uXXXX` form.
pub open spec fn glyph_spec(name: Seq<char>) -> Option<char> {
    let base = name.subrange(0, first_dot_from(name, 0));
    match agl_from(base, 0) {
        Some(c) => Some(c),
        None => uni_form_spec(base),
    }
}

proof fn lemma_first_dot_bounds(s: Seq<char>, i: int)
    requires
        0 <= i <= s.len(),
    ensures
        i <= first_dot_from(s, i) <= s.len(),
    decreases s.len() - i,
{
    if i < s.len() && s[i] != '.' {
        lemma_first_dot_bounds(s, i + 1);
    }
}

/// Looking up a name held by entry `k` (searching from `start`) finds the
/// entry of its first occurrence at or after `start`.
proof fn lemma_agl_from_first(name: Seq<char>, start: int, k: int)
    requires
        0 <= start <= k < 164,
        AGL@[k].0@ == name,
    ensures
        exists|j: int|
            #![trigger AGL@[j]]
            start <= j <= k && AGL@[j].0@ == name && agl_from(name, start) == char_of(AGL@[j].1)
                && forall|i: int| start <= i < j ==> AGL@[i].0@ != name,
    decreases k - start,
{
    if AGL@[start].0@ == name {
        assert(AGL@[start].0@ == name);
    } else {
        lemma_agl_from_first(name, start + 1, k);
        let j = choose|j: int|
            #![trigger AGL@[j]]
            start + 1 <= j <= k && AGL@[j].0@ == name && agl_from(name, start + 1) == char_of(AGL@[j].1)
                && forall|i: int| start + 1 <= i < j ==> AGL@[i].0@ != name;
        assert(AGL@[j].0@ == name);
    }
}

/// Every name of the glyph list is found: looking it up gives the character
/// of the first entry carrying that name.
pub proof fn lemma_agl_names_found(k: int)
    requires
        0 <= k < 164,
    ensures
        exists|j: int|
            #![trigger AGL@[j]]
            0 <= j <= k && AGL@[j].0@ == AGL@[k].0@ && agl_from(AGL@[k].0@, 0) == char_of(AGL@[j].1)
                && forall|i: int| 0 <= i < j ==> AGL@[i].0@ != AGL@[k].0@,
{
    lemma_agl_from_first(AGL@[k].0@, 0, k);
}

/// Past a dot-free prefix, the first dot is the one that follows it.
proof fn lemma_first_dot_after(n: Seq<char>, s: Seq<char>, i: int)
    requires
        0 <= i <= n.len(),
        forall|t: int| 0 <= t < n.len() ==> n[t] != '.',
    ensures
        first_dot_from(n + seq!['.'] + s, i) == n.len(),
    decreases n.len() - i,
{
    let w = n + seq!['.'] + s;
    if i < n.len() {
        assert(w[i] == n[i]);
        lemma_first_dot_after(n, s, i + 1);
    } else {
        assert(w[i] == '.');
    }
}

/// A `.variant` suffix does not change what a dot-free glyph name maps to.
pub proof fn lemma_glyph_suffix_ignored(n: Seq<char>, suffix: Seq<char>)
    requires
        forall|t: int| 0 <= t < n.len() ==> n[t] != '.',
    ensures
        glyph_spec(n + seq!['.'] + suffix) == glyph_spec(n),
        glyph_spec(n) == match agl_from(n, 0) {
            Some(c) => Some(c),
            None => uni_form_spec(n),
        },
{
    lemma_first_dot_after(n, suffix, 0);
    lemma_first_dot_after(n, seq![], 0);
    let w = n + seq!['.'] + suffix;
    assert(w.subrange(0, n.len() as int) =~= n);
    assert((n + seq!['.'] + Seq::<char>::empty()).subrange(0, n.len() as int) =~= n);
    lemma_no_dot_whole(n, 0);
    assert(n.subrange(0, n.len() as int) =~= n);
}

/// A dot-free name's first dot is its length.
proof fn lemma_no_dot_whole(n: Seq<char>, i: int)
    requires
        0 <= i <= n.len(),
        forall|t: int| 0 <= t < n.len() ==> n[t] != '.',
    ensures
        first_dot_from(n, i) == n.len(),
    decreases n.len() - i,
{
    if i < n.len() {
        lemma_no_dot_whole(n, i + 1);
    }
}

/// A glyph-list name, bare or with a `.variant` suffix, maps to the character
/// of the first entry carrying that name (for a name without a dot).
pub proof fn lemma_agl_glyph_found(k: int, suffix: Seq<char>)
    requires
        0 <= k < 164,
        forall|t: int| 0 <= t < AGL@[k].0@.len() ==> AGL@[k].0@[t] != '.',
    ensures
        exists|j: int|
            #![trigger AGL@[j]]
            0 <= j <= k && AGL@[j].0@ == AGL@[k].0@ && (forall|i: int| 0 <= i < j ==> AGL@[i].0@ != AGL@[k].0@)
                && (char_of(AGL@[j].1) is Some ==> glyph_spec(AGL@[k].0@) == char_of(AGL@[j].1)
                && glyph_spec(AGL@[k].0@ + seq!['.'] + suffix) == char_of(AGL@[j].1)),
{
    let n = AGL@[k].0@;
    lemma_agl_names_found(k);
    lemma_glyph_suffix_ignored(n, suffix);
}

/// Map a glyph name to a Unicode scalar: AGL table, then the algorithmic
/// `uniXXXX` / `uXXXXXX` forms, ignoring any `.variant` suffix.
pub fn glyph_to_unicode(name: &str) -> (r: Option<char>)
    ensures
        r == glyph_spec(name@),
{
    let i = dot_index(name);
    let base = name.substring_char(0, i);
    match agl_lookup(base) {
        Some(c) => Some(c),
        None => uni_form(base),
    }
}

/// The index of the first `.` in `name`, or its length.
fn dot_index(name: &str) -> (r: usize)
    ensures
        r == first_dot_from(name@, 0),
        r <= name@.len(),
{
    let n = name.unicode_len();
    let mut i: usize = 0;
    while i < n
        invariant
            n == name@.len(),
            i <= n,
            first_dot_from(name@, 0) == first_dot_from(name@, i as int),
        decreases n - i,
    {
        if name.get_char(i) == '.' {
            return i;
        }
        i += 1;
    }
    i
}

/// Look a name up in the glyph list.
fn agl_lookup(name: &str) -> (r: Option<char>)
    ensures
        r == agl_from(name@, 0),
{
    let table = AGL;
    let mut k: usize = 0;
    while k < 164
        invariant
            k <= 164,
            table@ == AGL@,
            agl_from(name@, 0) == agl_from(name@, k as int),
        decreases 164 - k,
    {
        if str_eq(table[k].0, name) {
            return char_from_u32(table[k].1);
        }
        k += 1;
    }
    None
}

/// Decode `uniXXXX` (one BMP scalar) and `uXXXX`..`uXXXXXX` glyph names.
fn uni_form(name: &str) -> (r: Option<char>)
    ensures
        r == uni_form_spec(name@),
{
    let n = name.unicode_len();
    if n >= 3 && name.get_char(0) == 'u' && name.get_char(1) == 'n' && name.get_char(2) == 'i' {
        if n >= 7 {
            return from_hex(name.substring_char(3, 7));
        }
        return None;
    }
    if n >= 1 && name.get_char(0) == 'u' && 5 <= n && n <= 7 {
        return from_hex(name.substring_char(1, n));
    }
    None
}

/// The character named by hexadecimal text (`u32::from_str_radix` rules).
fn from_hex(hex: &str) -> (r: Option<char>)
    requires
        hex@.len() <= 6,
    ensures
        r == from_hex_spec(hex@),
{
    let n = hex.unicode_len();
    let start: usize = if n > 0 && hex.get_char(0) == '+' { 1 } else { 0 };
    let ghost digits = hex@.subrange(start as int, n as int);
    if start >= n {
        return None;
    }
    let mut v: u32 = 0;
    let mut i: usize = start;
    while i < n
        invariant
            n == hex@.len(),
            start <= i <= n,
            n <= 6,
            start == (if n > 0 && hex@[0] == '+' { 1usize } else { 0usize }),
            digits == hex@.subrange(start as int, n as int),
            hex_digits_value(hex@.subrange(start as int, i as int)) == Some(v as int),
            v < pow16(i - start),
        decreases n - i,
    {
        let c = hex.get_char(i);
        assert(hex@.subrange(start as int, i + 1).drop_last() =~= hex@.subrange(start as int, i as int));
        proof {
            reveal_with_fuel(pow16, 7);
        }
        let d: u32 = if '0' <= c && c <= '9' {
            (c as u32) - ('0' as u32)
        } else if 'a' <= c && c <= 'f' {
            (c as u32) - ('a' as u32) + 10
        } else if 'A' <= c && c <= 'F' {
            (c as u32) - ('A' as u32) + 10
        } else {
            proof {
                let whole = hex@.subrange(start as int, n as int);
                assert(hex@.subrange(start as int, i + 1).last() == c);
                assert(hex_digit(c) is None);
                assert(hex_digits_value(hex@.subrange(start as int, i + 1)) is None);
                assert(whole.subrange(0, i + 1 - start) =~= hex@.subrange(start as int, i + 1));
                lemma_hex_none_extends(whole, i + 1 - start);
                if start == 0 {
                    assert(hex@.subrange(0, n as int) =~= hex@);
                }
            }
            return None;
        };
        v = v * 16 + d;
        i += 1;
    }
    if start == 0 {
        assert(hex@.subrange(0, n as int) =~= hex@);
    }
    char_from_u32(v)
}

/// Hexadecimal text with a bad digit has no value, whatever follows it.
proof fn lemma_hex_none_extends(s: Seq<char>, k: int)
    requires
        0 <= k <= s.len(),
        hex_digits_value(s.subrange(0, k)) is None,
    ensures
        hex_digits_value(s) is None,
    decreases s.len() - k,
{
    if k < s.len() {
        assert(s.subrange(0, k + 1).drop_last() =~= s.subrange(0, k));
        lemma_hex_none_extends(s, k + 1);
    } else {
        assert(s.subrange(0, k) =~= s);
    }
}

/// `16^n` for the few digit counts used.
pub open spec fn pow16(n: int) -> int
    decreases n,
{
    if n <= 0 {
        1
    } else {
        16 * pow16(n - 1)
    }
}

/// The Adobe Symbol encoding: byte → Unicode scalar (0 = unmapped). Symbol
/// fonts (Symbol, SymbolMT) that map their glyphs to the private-use area put
/// the byte at `U+F000 + byte`.
pub const SYMBOL_ENC: [u32; 256] = [
    0, 0, 0, 0, 0, 0, 0, 0,
    0, 0, 0, 0, 0, 0, 0, 0,
    0, 0, 0, 0, 0, 0, 0, 0,
    0, 0, 0, 0, 0, 0, 0, 0,
    0x0020, 0x0021, 0x2200, 0x0023, 0x2203, 0x0025, 0x0026, 0x220B,
    0x0028, 0x0029, 0x2217, 0x002B, 0x002C, 0x2212, 0x002E, 0x002F,
    0x0030, 0x0031, 0x0032, 0x0033, 0x0034, 0x0035, 0x0036, 0x0037,
    0x0038, 0x0039, 0x003A, 0x003B, 0x003C, 0x003D, 0x003E, 0x003F,
    0x2245, 0x0391, 0x0392, 0x03A7, 0x0394, 0x0395, 0x03A6, 0x0393,
    0x0397, 0x0399, 0x03D1, 0x039A, 0x039B, 0x039C, 0x039D, 0x039F,
    0x03A0, 0x0398, 0x03A1, 0x03A3, 0x03A4, 0x03A5, 0x03C2, 0x03A9,
    0x039E, 0x03A8, 0x0396, 0x005B, 0x2234, 0x005D, 0x22A5, 0x005F,
    0, 0x03B1, 0x03B2, 0x03C7, 0x03B4, 0x03B5, 0x03C6, 0x03B3,
    0x03B7, 0x03B9, 0x03D5, 0x03BA, 0x03BB, 0x03BC, 0x03BD, 0x03BF,
    0x03C0, 0x03B8, 0x03C1, 0x03C3, 0x03C4, 0x03C5, 0x03D6, 0x03C9,
    0x03BE, 0x03C8, 0x03B6, 0x007B, 0x007C, 0x007D, 0x223C, 0,
    0, 0, 0, 0, 0, 0, 0, 0,
    0, 0, 0, 0, 0, 0, 0, 0,
    0, 0, 0, 0, 0, 0, 0, 0,
    0, 0, 0, 0, 0, 0, 0, 0,
    0x20AC, 0x03D2, 0x2032, 0x2264, 0x2044, 0x221E, 0x0192, 0x2663,
    0x2666, 0x2665, 0x2660, 0x2194, 0x2190, 0x2191, 0x2192, 0x2193,
    0x00B0, 0x00B1, 0x2033, 0x2265, 0x00D7, 0x221D, 0x2202, 0x2022,
    0x00F7, 0x2260, 0x2261, 0x2248, 0x2026, 0, 0, 0x21B5,
    0x2135, 0x2111, 0x211C, 0x2118, 0x2297, 0x2295, 0x2205, 0x2229,
    0x222A, 0x2283, 0x2287, 0x2284, 0x2282, 0x2286, 0x2208, 0x2209,
    0x2220, 0x2207, 0x00AE, 0x00A9, 0x2122, 0x220F, 0x221A, 0x22C5,
    0x00AC, 0x2227, 0x2228, 0x21D4, 0x21D0, 0x21D1, 0x21D2, 0x21D3,
    0x25CA, 0x2329, 0x00AE, 0x00A9, 0x2122, 0x2211, 0x239B, 0x239C,
    0x239D, 0x23A1, 0x23A2, 0x23A3, 0x23A7, 0x23A8, 0x23A9, 0x23AA,
    0, 0x232A, 0x222B, 0x2320, 0x23AE, 0x2321, 0x239E, 0x239F,
    0x23A0, 0x23A4, 0x23A5, 0x23A6, 0x23AB, 0x23AC, 0x23AD, 0,
];

/// The MT-Extra private-use points with a known Unicode meaning.
pub const MTEXTRA_PUA: [(u32, u32); 1] = [(0xF051, 0x2229)];

/// The real character behind a Symbol-font private-use point `U+F0xx`: the
/// Symbol encoding of byte `xx`, when it maps one.
pub open spec fn symbol_pua_spec(cp: u32) -> Option<char> {
    if 0xF000 <= cp <= 0xF0FF && SYMBOL_ENC@[cp - 0xF000] != 0 {
        char_of(SYMBOL_ENC@[cp - 0xF000])
    } else {
        None
    }
}

/// The real character behind an MT-Extra private-use point, when known.
pub open spec fn mtextra_pua_spec(cp: u32) -> Option<char> {
    if cp == MTEXTRA_PUA@[0].0 {
        char_of(MTEXTRA_PUA@[0].1)
    } else {
        None
    }
}

/// Reverse a Symbol-font private-use point to real Unicode.
pub fn symbol_pua_to_unicode(cp: u32) -> (r: Option<char>)
    ensures
        r == symbol_pua_spec(cp),
{
    if 0xF000 <= cp && cp <= 0xF0FF {
        let table = SYMBOL_ENC;
        let v = table[(cp - 0xF000) as usize];
        if v != 0 {
            return char_from_u32(v);
        }
    }
    None
}

/// Reverse an MT-Extra private-use point to real Unicode.
pub fn mtextra_pua_to_unicode(cp: u32) -> (r: Option<char>)
    ensures
        r == mtextra_pua_spec(cp),
{
    let table = MTEXTRA_PUA;
    if cp == table[0].0 {
        char_from_u32(table[0].1)
    } else {
        None
    }
}

} // verus!

use std::collections::HashMap;
use turbo_parsepdf_core::filter::lzw::lzw_decode;

const CLEAR: u16 = 256;
const EOD: u16 = 257;
const FIRST: usize = 258;

// A reference MSB-first LZW encoder mirroring the decoder, for round-trips.
struct Writer {
    out: Vec<u8>,
    bitpos: usize,
}
impl Writer {
    fn new() -> Self {
        Writer {
            out: Vec::new(),
            bitpos: 0,
        }
    }
    fn write(&mut self, code: u16, width: u32) {
        for i in (0..width).rev() {
            let bit = ((code >> i) & 1) as u8;
            let byte = self.bitpos / 8;
            if byte >= self.out.len() {
                self.out.push(0);
            }
            self.out[byte] |= bit << (7 - (self.bitpos % 8));
            self.bitpos += 1;
        }
    }
}

fn enc_bump_width(width: u32, next: usize, early: usize) -> u32 {
    if next >= (1usize << width) - early && width < 12 {
        width + 1
    } else {
        width
    }
}

fn encode(data: &[u8], early_change: bool) -> Vec<u8> {
    let mut w = Writer::new();
    let mut dict: HashMap<Vec<u8>, u16> = HashMap::new();
    let reset = |d: &mut HashMap<Vec<u8>, u16>| {
        d.clear();
        for b in 0u16..=255 {
            d.insert(vec![b as u8], b);
        }
    };
    reset(&mut dict);
    let mut next = FIRST as u16;
    let mut width = 9u32;
    let early = usize::from(early_change);
    w.write(CLEAR, width);
    let mut current: Vec<u8> = Vec::new();
    for &b in data {
        let mut probe = current.clone();
        probe.push(b);
        if dict.contains_key(&probe) {
            current = probe;
        } else {
            w.write(dict[&current], width);
            dict.insert(probe, next);
            next += 1;
            width = enc_bump_width(width, next as usize, early);
            current = vec![b];
        }
    }
    if !current.is_empty() {
        w.write(dict[&current], width);
    }
    w.write(EOD, width);
    w.out
}

fn roundtrip(plain: &[u8], early: bool) {
    let encoded = encode(plain, early);
    assert_eq!(lzw_decode(&encoded, early).unwrap(), plain);
}

#[test]
fn short_string() {
    roundtrip(b"TOBEORNOTTOBEORTOBEORNOT", true);
}

#[test]
fn kwkwk_case() {
    // Repeated runs trigger the "code not yet in table" path.
    roundtrip(b"AAAAAAAAAAAAAAAAAA", true);
}

#[test]
fn early_change_off() {
    roundtrip(b"the quick brown fox the quick brown fox jumped", false);
}

#[test]
fn width_growth_over_512_codes() {
    // A long, varied input forces the table past 9- and 10-bit widths.
    let mut big = Vec::new();
    for i in 0u32..2000 {
        big.push((i % 251) as u8);
    }
    roundtrip(&big, true);
}

#[test]
fn empty_and_eod() {
    // A bare EOD code decodes to nothing.
    assert_eq!(lzw_decode(&encode(b"", true), true).unwrap(), b"");
}

#[test]
fn corrupt_first_code_errors() {
    // First code 258 is undefined with no prev string → KwKwK has no base.
    // 258 = 0b1_0000_0010, packed MSB-first → 0x81, 0x00.
    assert!(lzw_decode(&[0x81, 0x00], true).is_err());
}

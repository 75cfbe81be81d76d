//! Embedded image output (ISO 32000-1 §8.9): the format of an image XObject
//! and a browser-renderable `data:` URL for its bytes.
//!
//! JPEG (`DCTDecode`) and JPEG 2000 (`JPXDecode`) bodies are complete image
//! files and are embedded as they are; raw component samples are wrapped as a
//! PNG when their colour space and depth have a PNG equivalent.

use vstd::prelude::*;
use vstd::string::StringExecFns;

use crate::encode::{base64_encode, base64_spec, png_encode, png_spec, row_bytes_spec, spp_spec};
use crate::filter::{decode_stream, decode_stream_spec, lookup_either};
use crate::object::{lookup, str_eq, Dictionary, Object, Val};
use crate::pagetree::dict_res;
use crate::resolver::Resolver;

verus! {

/// The encoded form of an extracted image's bytes.
#[derive(Debug, Clone, Copy, PartialEq, Eq, Structural)]
pub enum ImageFormat {
    /// JPEG (`DCTDecode`): `data` is a complete JPEG file.
    Jpeg,
    /// JPEG 2000 (`JPXDecode`): `data` is a complete JP2 codestream.
    Jpeg2000,
    /// CCITT Group 3/4 fax (`CCITTFaxDecode`).
    Ccitt,
    /// JBIG2 (`JBIG2Decode`).
    Jbig2,
    /// Raw component samples (filters other than the image codecs applied).
    Raw,
}

/// An extracted image XObject.
#[derive(Debug)]
pub struct ParsedImage {
    pub name: String,
    pub format: ImageFormat,
    pub width: u32,
    pub height: u32,
    pub bits_per_component: u32,
    pub color_space: String,
    /// A browser-renderable `data:` URL (JPEG/JPEG2000 passthrough, raw→PNG,
    /// or empty for non-viewable formats).
    pub data_url: String,
    pub data: Vec<u8>,
}

/// `data:<mime>;base64,<base64 of data>`.
pub open spec fn data_url_spec(mime: Seq<char>, data: Seq<u8>) -> Seq<char> {
    "data:"@ + mime + ";base64,"@ + base64_spec(data)
}

/// A `data:<mime>;base64,<bytes>` URL.
pub fn data_url_bytes(mime: &str, data: &[u8]) -> (r: String)
    ensures
        r@ == data_url_spec(mime@, data@),
{
    let mut s = String::from_str("data:");
    s.append(mime);
    s.append(";base64,");
    let b = base64_encode(data);
    s.append(b.as_str());
    s
}

/// The PNG `(bit depth, colour type)` of a PDF colour space and depth (the
/// depth taken modulo 256): grey at 1, 2, 4, 8 or 16 bits, RGB at 8 or 16.
pub open spec fn png_color_type_spec(cs: Seq<char>, bpc: u32) -> Option<(u8, u8)> {
    let b = bpc as u8;
    if (cs == "DeviceGray"@ || cs == "CalGray"@) && (b == 1 || b == 2 || b == 4 || b == 8 || b
        == 16) {
        Some((b, 0u8))
    } else if (cs == "DeviceRGB"@ || cs == "CalRGB"@) && (b == 8 || b == 16) {
        Some((b, 2u8))
    } else {
        None
    }
}

/// Map a PDF colour space + bit depth to a PNG `(bit_depth, colour_type)`.
pub fn png_color_type(color_space: &str, bpc: u32) -> (r: Option<(u8, u8)>)
    ensures
        r == png_color_type_spec(color_space@, bpc),
{
    let bpc = #[verifier::truncate] (bpc as u8);
    if (str_eq(color_space, "DeviceGray") || str_eq(color_space, "CalGray")) && (bpc == 1 || bpc
        == 2 || bpc == 4 || bpc == 8 || bpc == 16) {
        Some((bpc, 0))
    } else if (str_eq(color_space, "DeviceRGB") || str_eq(color_space, "CalRGB")) && (bpc == 8
        || bpc == 16) {
        Some((bpc, 2))
    } else {
        None
    }
}

/// The PNG `data:` URL for raw samples, or empty when there is no PNG
/// colour type or the samples do not fill the image.
pub open spec fn png_data_url_spec(cs: Seq<char>, bpc: u32, w: u32, h: u32, data: Seq<u8>) -> Seq<char> {
    match png_color_type_spec(cs, bpc) {
        None => seq![],
        Some((depth, ct)) => match spp_spec(ct) {
            None => seq![],
            Some(spp) => {
                let rb = row_bytes_spec(w, spp, depth);
                if w != 0 && h != 0 && data.len() == rb * h {
                    data_url_spec("image/png"@, png_spec(data, w, h, depth, ct, rb as nat))
                } else {
                    seq![]
                }
            },
        },
    }
}

/// Transcode raw samples to a PNG `data:` URL, or empty.
pub fn png_data_url(color_space: &str, bpc: u32, w: u32, h: u32, data: &[u8]) -> (r: String)
    ensures
        r@ == png_data_url_spec(color_space@, bpc, w, h, data@),
{
    let (bit_depth, color_type) = match png_color_type(color_space, bpc) {
        Some(ct) => ct,
        None => return String::new(),
    };
    match png_encode(data, w, h, bit_depth, color_type) {
        Some(png) => data_url_bytes("image/png", png.as_slice()),
        None => String::new(),
    }
}

/// The `data:` URL for an image's bytes by format.
pub open spec fn image_data_url_spec(format: ImageFormat, cs: Seq<char>, bpc: u32, w: u32, h: u32, data: Seq<u8>) -> Seq<char> {
    match format {
        ImageFormat::Jpeg => data_url_spec("image/jpeg"@, data),
        ImageFormat::Jpeg2000 => data_url_spec("image/jp2"@, data),
        ImageFormat::Raw => png_data_url_spec(cs, bpc, w, h, data),
        _ => seq![],
    }
}

/// Build a browser-renderable `data:` URL for an image's bytes.
pub fn image_data_url(format: ImageFormat, color_space: &str, bpc: u32, w: u32, h: u32, data: &[u8]) -> (r: String)
    ensures
        r@ == image_data_url_spec(format, color_space@, bpc, w, h, data@),
{
    match format {
        ImageFormat::Jpeg => data_url_bytes("image/jpeg", data),
        ImageFormat::Jpeg2000 => data_url_bytes("image/jp2", data),
        ImageFormat::Raw => png_data_url(color_space, bpc, w, h, data),
        ImageFormat::Ccitt | ImageFormat::Jbig2 => String::new(),
    }
}

/// The last `/Filter` (or `/F`) name: a single name or the last array element.
pub open spec fn last_filter_spec(d: Seq<(Seq<char>, Val)>) -> Option<Seq<char>> {
    match lookup_either(d, "Filter"@, "F"@) {
        Some(Val::Name(n)) => Some(n),
        Some(Val::Array(items)) => if items.len() > 0 {
            match items.last() {
                Val::Name(n) => Some(n),
                _ => None,
            }
        } else {
            None
        },
        _ => None,
    }
}

/// The image format named by the last filter (raw samples otherwise).
pub open spec fn classify_spec(d: Seq<(Seq<char>, Val)>) -> ImageFormat {
    let f = last_filter_spec(d);
    if f == Some("DCTDecode"@) {
        ImageFormat::Jpeg
    } else if f == Some("JPXDecode"@) {
        ImageFormat::Jpeg2000
    } else if f == Some("CCITTFaxDecode"@) {
        ImageFormat::Ccitt
    } else if f == Some("JBIG2Decode"@) {
        ImageFormat::Jbig2
    } else {
        ImageFormat::Raw
    }
}

/// The last `/Filter` name (a single name or the last array element).
fn last_filter(dict: &Dictionary) -> (r: Option<String>)
    ensures
        match last_filter_spec(dict@) {
            Some(n) => r matches Some(s) && s@ == n,
            None => r is None,
        },
{
    let found = match dict.get("Filter") {
        Some(o) => Some(o),
        None => dict.get("F"),
    };
    match found {
        Some(Object::Name(n)) => Some(n.clone()),
        Some(Object::Array(items)) => {
            proof {
                crate::object::lemma_array_val(*items);
            }
            let n = items.len();
            if n == 0 {
                return None;
            }
            match items[n - 1].as_name() {
                Some(s) => Some(s.to_owned()),
                None => None,
            }
        },
        _ => None,
    }
}

/// Classify the image format from the last filter in the chain.
pub fn classify(dict: &Dictionary) -> (r: ImageFormat)
    ensures
        r == classify_spec(dict@),
{
    match last_filter(dict) {
        Some(f) => {
            if str_eq(f.as_str(), "DCTDecode") {
                ImageFormat::Jpeg
            } else if str_eq(f.as_str(), "JPXDecode") {
                ImageFormat::Jpeg2000
            } else if str_eq(f.as_str(), "CCITTFaxDecode") {
                ImageFormat::Ccitt
            } else if str_eq(f.as_str(), "JBIG2Decode") {
                ImageFormat::Jbig2
            } else {
                ImageFormat::Raw
            }
        },
        None => ImageFormat::Raw,
    }
}

/// The name of an array colour space: its first element's name, else `Unknown`.
pub open spec fn array_color_space_spec(items: Seq<Val>) -> Seq<char> {
    if items.len() > 0 {
        match items[0] {
            Val::Name(n) => n,
            _ => "Unknown"@,
        }
    } else {
        "Unknown"@
    }
}

/// The name of an array colour space (`[/ICCBased …]` → `ICCBased`).
pub fn array_color_space(items: &[Object]) -> (r: String)
    ensures
        r@ == array_color_space_spec(crate::object::vals(items@)),
{
    if items.len() > 0 {
        match items[0].as_name() {
            Some(n) => return n.to_owned(),
            None => {},
        }
    }
    String::from_str("Unknown")
}

/// An integer entry as `u32`, or `default` when absent or out of range.
pub open spec fn uint_or_spec(d: Seq<(Seq<char>, Val)>, key: Seq<char>, default: u32) -> u32 {
    match lookup(d, key) {
        Some(Val::Integer(n)) => if 0 <= n <= u32::MAX {
            n as u32
        } else {
            default
        },
        _ => default,
    }
}

/// An integer entry as `u32`, or 0.
pub fn uint(dict: &Dictionary, key: &str) -> (r: u32)
    ensures
        r == uint_or_spec(dict@, key@, 0),
{
    uint_or(dict, key, 0)
}

/// An integer entry as `u32`, or `default`.
pub fn uint_or(dict: &Dictionary, key: &str, default: u32) -> (r: u32)
    ensures
        r == uint_or_spec(dict@, key@, default),
{
    match dict.get(key) {
        Some(o) => match o.as_integer() {
            Some(n) => if 0 <= n && n <= 0xffff_ffff {
                n as u32
            } else {
                default
            },
            None => default,
        },
        None => default,
    }
}

/// The content of an extracted image: name, format, width, height, bits per
/// component, colour space, `data:` URL and decoded bytes.
pub open spec fn image_view(i: ParsedImage) -> (Seq<char>, ImageFormat, u32, u32, u32, Seq<char>, Seq<char>, Seq<u8>) {
    (i.name@, i.format, i.width, i.height, i.bits_per_component, i.color_space@, i.data_url@, i.data@)
}

/// The image colour space as a readable name: a name, an array's first name,
/// else `DeviceRGB`.
pub open spec fn color_space_spec(r: Resolver, d: Seq<(Seq<char>, Val)>) -> Seq<char> {
    match lookup(d, "ColorSpace"@) {
        Some(c) => match r.spec_resolve(c) {
            Ok(Val::Name(n)) => n,
            Ok(Val::Array(a)) => array_color_space_spec(a),
            _ => "DeviceRGB"@,
        },
        None => "DeviceRGB"@,
    }
}

/// The image an XObject value stands for: a stream with `/Subtype /Image`
/// whose filters decode; anything else is no image.
pub open spec fn image_spec(r: Resolver, name: Seq<char>, v: Val) -> Option<
    (Seq<char>, ImageFormat, u32, u32, u32, Seq<char>, Seq<char>, Seq<u8>),
> {
    match r.spec_resolve(v) {
        Ok(Val::Stream(d, raw)) => if lookup(d, "Subtype"@) != Some(Val::Name("Image"@)) {
            None
        } else {
            match decode_stream_spec(d, raw) {
                Err(_) => None,
                Ok(data) => {
                    let format = classify_spec(d);
                    let w = uint_or_spec(d, "Width"@, 0);
                    let h = uint_or_spec(d, "Height"@, 0);
                    let bpc = uint_or_spec(d, "BitsPerComponent"@, 8);
                    let cs = color_space_spec(r, d);
                    Some((name, format, w, h, bpc, cs, image_data_url_spec(format, cs, bpc, w, h, data), data))
                },
            }
        },
        _ => None,
    }
}

/// The image colour space as a readable name (`DeviceRGB`, `ICCBased`, …).
pub fn color_space(r: &Resolver, dict: &Dictionary) -> (s: String)
    ensures
        s@ == color_space_spec(*r, dict@),
{
    let c = match dict.get("ColorSpace") {
        Some(c) => c,
        None => return String::from_str("DeviceRGB"),
    };
    match r.resolve(c) {
        Ok(Object::Name(n)) => n,
        Ok(Object::Array(a)) => {
            proof {
                crate::object::lemma_array_val(a);
            }
            array_color_space(a.as_slice())
        },
        _ => String::from_str("DeviceRGB"),
    }
}

/// Build a [`ParsedImage`] from an XObject value, or `None` if it is not an image.
pub fn image_of(r: &Resolver, name: &str, value: &Object) -> (o: Option<ParsedImage>)
    ensures
        match image_spec(*r, name@, value@) {
            Some(v) => o matches Some(i) && image_view(i) == v,
            None => o is None,
        },
{
    let stream = match r.resolve(value) {
        Ok(o) => o,
        Err(_) => return None,
    };
    let s = match stream.as_stream() {
        Some(s) => s,
        None => return None,
    };
    let is_image = match s.dict.get("Subtype") {
        Some(o) => match o.as_name() {
            Some(n) => str_eq(n, "Image"),
            None => false,
        },
        None => false,
    };
    if !is_image {
        return None;
    }
    let format = classify(&s.dict);
    let data = match decode_stream(&s.dict, s.data.as_slice()) {
        Ok(d) => d,
        Err(_) => return None,
    };
    let width = uint(&s.dict, "Width");
    let height = uint(&s.dict, "Height");
    let bpc = uint_or(&s.dict, "BitsPerComponent", 8);
    let color_space = color_space(r, &s.dict);
    let data_url = image_data_url(format, color_space.as_str(), bpc, width, height, data.as_slice());
    Some(ParsedImage { name: name.to_owned(), format, width, height, bits_per_component: bpc, color_space, data_url, data })
}

/// The images among an XObject dictionary's entries, in order.
pub open spec fn images_from(r: Resolver, entries: Seq<(Seq<char>, Val)>) -> Seq<
    (Seq<char>, ImageFormat, u32, u32, u32, Seq<char>, Seq<char>, Seq<u8>),
>
    decreases entries.len(),
{
    if entries.len() == 0 {
        seq![]
    } else {
        let rest = images_from(r, entries.drop_last());
        match image_spec(r, entries.last().0, entries.last().1) {
            Some(i) => rest.push(i),
            None => rest,
        }
    }
}

/// The images of a page's `/Resources /XObject`.
pub open spec fn images_spec(r: Resolver, resources: Seq<(Seq<char>, Val)>) -> Seq<
    (Seq<char>, ImageFormat, u32, u32, u32, Seq<char>, Seq<char>, Seq<u8>),
> {
    match lookup(resources, "XObject"@) {
        Some(x) => match dict_res(r, x) {
            Ok(xd) => images_from(r, xd),
            Err(_) => seq![],
        },
        None => seq![],
    }
}

/// Append one XObject if it is an image.
fn push_image(r: &Resolver, out: &mut Vec<ParsedImage>, name: &str, value: &Object)
    ensures
        final(out)@.map_values(|i: ParsedImage| image_view(i)) == match image_spec(*r, name@, value@) {
            Some(v) => old(out)@.map_values(|i: ParsedImage| image_view(i)).push(v),
            None => old(out)@.map_values(|i: ParsedImage| image_view(i)),
        },
{
    if let Some(img) = image_of(r, name, value) {
        let ghost before = out@;
        out.push(img);
        assert(out@.map_values(|i: ParsedImage| image_view(i)) =~= before.map_values(|i: ParsedImage| image_view(i)).push(image_view(img)));
    }
}

/// Extract every image XObject in a page's `/Resources /XObject` dictionary.
pub fn extract_images(r: &Resolver, resources: &Dictionary) -> (v: Vec<ParsedImage>)
    ensures
        v@.map_values(|i: ParsedImage| image_view(i)) == images_spec(*r, resources@),
{
    let mut out: Vec<ParsedImage> = Vec::new();
    assert(out@.map_values(|i: ParsedImage| image_view(i)) =~= Seq::<(Seq<char>, ImageFormat, u32, u32, u32, Seq<char>, Seq<char>, Seq<u8>)>::empty());
    let x = match resources.get("XObject") {
        Some(x) => x,
        None => return out,
    };
    let xobjects = match r.resolve_dict(x) {
        Ok(d) => d,
        Err(_) => return out,
    };
    let items = xobjects.iter();
    let mut k: usize = 0;
    while k < items.len()
        invariant
            k <= items@.len(),
            items@.len() == xobjects@.len(),
            forall|i: int|
                0 <= i < items@.len() ==> (#[trigger] items@[i]).0@ == xobjects@[i].0 && items@[i].1@ == xobjects@[i].1,
            out@.map_values(|i: ParsedImage| image_view(i)) == images_from(*r, xobjects@.subrange(0, k as int)),
        decreases items@.len() - k,
    {
        proof {
            assert(xobjects@.subrange(0, k + 1).drop_last() =~= xobjects@.subrange(0, k as int));
        }
        push_image(r, &mut out, items[k].0.as_str(), &items[k].1);
        k += 1;
    }
    assert(xobjects@.subrange(0, k as int) =~= xobjects@);
    out
}

} // verus!

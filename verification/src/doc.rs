//! The public document entry point.
//!
//! [`Document::parse`] validates the `%PDF-` header, reads the cross-reference
//! chain, requires a `/Root`, installs decryption when the trailer carries an
//! `/Encrypt` dictionary, and exposes a [`Resolver`] over the body: version,
//! trailer, catalog, raw object fetch and the page list.

use vstd::prelude::*;

use crate::cos::{agrees, lossy_string, lossy_text};
use crate::crypt::{derivation_defined, derivation_ok, from_encrypt_spec, Decryptor, Method};
use crate::error::{ErrorCode, TurboParsePdfError};
use crate::object::{bytes_eq, copy_bytes, lookup, Dictionary, ObjRef, Object, Val};
use crate::pagetree::{collect_pages, collect_spec, dict_res, views, Page};
use crate::resolver::{dict_of, occurs_at, resolve_spec, Resolver, MAX_DEPTH};
use crate::xref::{read_xref, xref_spec, XrefEntry};

verus! {

/// `%PDF-`
pub const PDF_SIG: [u8; 5] = [0x25, 0x50, 0x44, 0x46, 0x2d];

/// The first position at or after `i` where `kw` occurs.
pub open spec fn first_occurrence(data: Seq<u8>, i: int, kw: Seq<u8>) -> Option<int>
    decreases data.len() - i,
{
    if i < 0 || i >= data.len() || i + kw.len() > data.len() {
        None
    } else if occurs_at(data, i, kw) {
        Some(i)
    } else {
        first_occurrence(data, i + 1, kw)
    }
}

/// A version-run terminator: space, tab, CR or LF.
pub open spec fn version_stop(b: u8) -> bool {
    b == 0x20 || b == 0x09 || b == 0x0d || b == 0x0a
}

/// The first terminator at or after `i` (or the end).
pub open spec fn version_end(after: Seq<u8>, i: int) -> int
    decreases after.len() - i,
{
    if i < 0 || i >= after.len() {
        after.len() as int
    } else if version_stop(after[i]) {
        i
    } else {
        version_end(after, i + 1)
    }
}

/// The version text: the run before the first terminator, at most 8 bytes,
/// read as text (its UTF-8 decoding, or the lossy decoding of invalid bytes).
pub open spec fn version_spec(after: Seq<u8>) -> Seq<char> {
    let end = version_end(after, 0);
    lossy_text(after.subrange(0, if end < 8 { end } else { 8 }))
}

/// The header's version: the text after the first `%PDF-` within the first
/// 1024 bytes.
#[verifier::opaque]
pub open spec fn header_version(data: Seq<u8>) -> Option<Seq<char>> {
    let scan = data.subrange(0, if data.len() < 1024 { data.len() as int } else { 1024 });
    match first_occurrence(scan, 0, PDF_SIG@) {
        Some(at) => Some(version_spec(data.subrange(at + 5, data.len() as int))),
        None => None,
    }
}

/// Read the version run (`1.4`, `2.0`, …) up to the first whitespace/EOL.
pub fn read_version(after: &[u8]) -> (r: String)
    ensures
        r@ == version_spec(after@),
{
    let mut i: usize = 0;
    while i < after.len() && !(after[i] == 0x20 || after[i] == 0x09 || after[i] == 0x0d || after[i] == 0x0a)
        invariant
            i <= after@.len(),
            version_end(after@, i as int) == version_end(after@, 0),
        decreases after@.len() - i,
    {
        i += 1;
    }
    let end = if i < 8 { i } else { 8 };
    lossy_string(vstd::slice::slice_subrange(after, 0, end))
}

/// `first_occurrence` finds the earliest occurrence at or after `i`, and
/// finds nothing exactly when there is none.
pub proof fn lemma_first_occurrence(data: Seq<u8>, i: int, kw: Seq<u8>)
    requires
        0 <= i,
        kw.len() > 0,
    ensures
        match first_occurrence(data, i, kw) {
            Some(at) => i <= at && occurs_at(data, at, kw) && forall|j: int| i <= j < at ==> !occurs_at(data, j, kw),
            None => forall|j: int| i <= j ==> !occurs_at(data, j, kw),
        },
    decreases data.len() - i,
{
    if i >= data.len() || i + kw.len() > data.len() {
    } else if occurs_at(data, i, kw) {
    } else {
        lemma_first_occurrence(data, i + 1, kw);
    }
}

/// The header is missing exactly when `%PDF-` occurs nowhere wholly inside
/// the first 1024 bytes; otherwise the version is read after its first
/// occurrence there.
pub proof fn lemma_header_scan(data: Seq<u8>)
    ensures
        ({
            let n = if data.len() < 1024 { data.len() as int } else { 1024 };
            &&& header_version(data) is None <==> forall|j: int| 0 <= j && j + 5 <= n ==> !occurs_at(data, j, PDF_SIG@)
            &&& header_version(data) matches Some(v) ==> exists|at: int|
                0 <= at && at + 5 <= n && occurs_at(data, at, PDF_SIG@) && (forall|j: int| 0 <= j < at ==> !occurs_at(data, j, PDF_SIG@))
                    && v == version_spec(data.subrange(at + 5, data.len() as int))
        }),
{
    reveal(header_version);
    let n = if data.len() < 1024 { data.len() as int } else { 1024 };
    let scan = data.subrange(0, n);
    assert(PDF_SIG@.len() == 5);
    lemma_first_occurrence(scan, 0, PDF_SIG@);
    assert forall|j: int| 0 <= j && j + 5 <= n implies occurs_at(scan, j, PDF_SIG@) == occurs_at(data, j, PDF_SIG@) by {
        assert(scan.subrange(j, j + 5) =~= data.subrange(j, j + 5));
    }
    match first_occurrence(scan, 0, PDF_SIG@) {
        Some(at) => {
            assert(occurs_at(data, at, PDF_SIG@));
            assert forall|j: int| 0 <= j < at implies !occurs_at(data, j, PDF_SIG@) by {
                assert(!occurs_at(scan, j, PDF_SIG@));
            }
        },
        None => {
            assert forall|j: int| 0 <= j && j + 5 <= n implies !occurs_at(data, j, PDF_SIG@) by {
                assert(!occurs_at(scan, j, PDF_SIG@));
            }
        },
    }
}

/// Locate and parse the `%PDF-x.y` header within the first 1024 bytes.
pub fn parse_header(data: &[u8]) -> (r: Result<String, TurboParsePdfError>)
    ensures
        match header_version(data@) {
            Some(v) => r matches Ok(s) && s@ == v,
            None => r matches Err(e) && e.code == ErrorCode::InvalidHeader,
        },
{
    proof {
        reveal(header_version);
    }
    let sig = PDF_SIG;
    let n = if data.len() < 1024 { data.len() } else { 1024 };
    let ghost scan = data@.subrange(0, n as int);
    let mut i: usize = 0;
    while n >= 5 && i <= n - 5
        invariant
            n <= data@.len(),
            n == (if data@.len() < 1024 { data@.len() as int } else { 1024 }),
            scan == data@.subrange(0, n as int),
            sig@ == PDF_SIG@,
            first_occurrence(scan, i as int, PDF_SIG@) == first_occurrence(scan, 0, PDF_SIG@),
        decreases n - i,
    {
        let w = vstd::slice::slice_subrange(data, i, i + 5);
        if bytes_eq(w, sig.as_slice()) {
            assert(scan.subrange(i as int, i + 5) =~= w@);
            assert(first_occurrence(scan, i as int, PDF_SIG@) == Some(i as int));
            let after = vstd::slice::slice_subrange(data, i + 5, data.len());
            let v = read_version(after);
            proof {
                reveal(header_version);
                let scan0 = data@.subrange(0, if data@.len() < 1024 { data@.len() as int } else { 1024 });
                assert(scan0 == scan);
                assert(first_occurrence(scan0, 0, PDF_SIG@) == Some(i as int));
                assert(after@ == data@.subrange(i + 5, data@.len() as int));
                assert(header_version(data@) == Some(version_spec(after@)));
            }
            return Ok(v);
        }
        assert(scan.subrange(i as int, i + 5) =~= w@);
        i += 1;
    }
    Err(TurboParsePdfError::new(ErrorCode::InvalidHeader, "no %PDF- header"))
}

/// The error for a trailer without `/Root`.
pub fn missing_root() -> (r: TurboParsePdfError)
    ensures
        r.code == ErrorCode::MissingTrailer,
{
    TurboParsePdfError::new(ErrorCode::MissingTrailer, "trailer has no /Root")
}

/// Require the trailer to carry a `/Root` entry.
pub fn require_root(trailer: &Dictionary) -> (r: Result<(), TurboParsePdfError>)
    ensures
        lookup(trailer@, "Root"@) is Some <==> r is Ok,
        r matches Err(e) ==> e.code == ErrorCode::MissingTrailer,
{
    if trailer.get("Root").is_some() {
        Ok(())
    } else {
        Err(missing_root())
    }
}

/// The first element of the file `/ID` array, when it is a string.
pub open spec fn first_id_spec(t: Seq<(Seq<char>, Val)>) -> Seq<u8> {
    match lookup(t, "ID"@) {
        Some(Val::Array(items)) => if items.len() > 0 && items[0] is Str {
            items[0]->Str_0
        } else {
            seq![]
        },
        _ => seq![],
    }
}

/// The first element of the file `/ID` array (used in key derivation).
pub fn first_file_id(trailer: &Dictionary) -> (r: Vec<u8>)
    ensures
        r@ == first_id_spec(trailer@),
{
    match trailer.get("ID") {
        Some(o) => match o.as_array() {
            Some(items) => if items.len() > 0 {
                match items[0].as_string() {
                    Some(b) => copy_bytes(b),
                    None => Vec::new(),
                }
            } else {
                Vec::new()
            },
            None => Vec::new(),
        },
        None => Vec::new(),
    }
}

/// The decryption a document sets up: none without `/Encrypt`; otherwise the
/// `/Encrypt` dictionary is resolved (the object it names is exempt from
/// decryption) and the key derived from the password; a password that does not
/// open an R6 file, or a handler other than Standard, leaves the document
/// undecrypted. Key lengths the derivation cannot use are `Unsupported`.
#[verifier::opaque]
pub open spec fn encrypt_spec(
    data: Seq<u8>,
    xr: Map<u32, XrefEntry>,
    trailer: Seq<(Seq<char>, Val)>,
    password: Seq<u8>,
) -> Result<Option<(Seq<u8>, Method, Option<u32>)>, ErrorCode> {
    match lookup(trailer, "Encrypt"@) {
        None => Ok(None),
        Some(enc) => {
            let exempt = match enc {
                Val::Reference(r) => Some(r.num),
                _ => None,
            };
            match resolve_spec(data, xr, None, enc, MAX_DEPTH as nat) {
                Err(c) => Err(c),
                Ok(v) => match dict_of(v) {
                    None => Err(ErrorCode::InvalidObject),
                    Some(d) => if !derivation_defined(d, password.len()) {
                        Err(ErrorCode::Unsupported)
                    } else {
                        match from_encrypt_spec(d, first_id_spec(trailer), password) {
                            Some((key, method)) => Ok(Some((key, method, exempt))),
                            None => Ok(None),
                        }
                    },
                },
            }
        },
    }
}

/// Configure transparent decryption from the trailer `/Encrypt` dictionary.
fn setup_decryption(resolver: &mut Resolver, password: &[u8]) -> (r: Result<(), TurboParsePdfError>)
    requires
        old(resolver).dec() is None,
    ensures
        final(resolver).bytes() == old(resolver).bytes(),
        final(resolver).xref_view() == old(resolver).xref_view(),
        match encrypt_spec(old(resolver).bytes(), old(resolver).xref_view().0, old(resolver).xref_view().1, password@) {
            Ok(d) => r is Ok && final(resolver).dec() == d,
            Err(c) => r matches Err(e) && e.code == c,
        },
{
    proof {
        reveal(encrypt_spec);
    }
    let trailer = resolver.xref().trailer().clone();
    let enc = match trailer.get("Encrypt") {
        Some(e) => e,
        None => return Ok(()),
    };
    let exempt = match enc.as_reference() {
        Some(r) => Some(r.num),
        None => None,
    };
    let enc_dict = resolver.resolve_dict(enc)?;
    if !derivation_ok(&enc_dict, password.len()) {
        return Err(TurboParsePdfError::new(ErrorCode::Unsupported, "unsupported encryption key length"));
    }
    let id0 = first_file_id(&trailer);
    match Decryptor::from_encrypt(&enc_dict, id0.as_slice(), password) {
        Some(dec) => resolver.set_decryptor(dec, exempt),
        None => {},
    }
    Ok(())
}

/// What parsing a document gives: its version, cross-reference table and the
/// decryption in force.
pub open spec fn document_spec(data: Seq<u8>, password: Seq<u8>) -> Result<
    (Seq<char>, (Map<u32, XrefEntry>, Seq<(Seq<char>, Val)>), Option<(Seq<u8>, Method, Option<u32>)>),
    ErrorCode,
> {
    match header_version(data) {
        None => Err(ErrorCode::InvalidHeader),
        Some(ver) => match xref_spec(data) {
            Err(c) => Err(c),
            Ok(x) => if lookup(x.1, "Root"@) is None {
                Err(ErrorCode::MissingTrailer)
            } else {
                match encrypt_spec(data, x.0, x.1, password) {
                    Err(c) => Err(c),
                    Ok(d) => Ok((ver, x, d)),
                }
            },
        },
    }
}

/// A parsed PDF document: a validated header plus a resolver over the body.
pub struct Document<'a> {
    resolver: Resolver<'a>,
    version: String,
}

impl<'a> Document<'a> {
    /// The resolver over the body.
    pub closed spec fn res(&self) -> Resolver<'a> {
        self.resolver
    }

    /// The header version.
    pub closed spec fn version_view(&self) -> Seq<char> {
        self.version@
    }

    /// Parse `data` into a document (trying an empty password for any
    /// encryption). For password-protected files, use
    /// [`Document::parse_with_password`].
    pub fn parse(data: &'a [u8]) -> (r: Result<Document<'a>, TurboParsePdfError>)
        ensures
            match document_spec(data@, seq![]) {
                Ok((v, x, d)) => r matches Ok(doc) && doc.version_view() == v && doc.res().bytes() == data@
                    && doc.res().xref_view() == x && doc.res().dec() == d,
                Err(c) => r matches Err(e) && e.code == c,
            },
    {
        let empty: [u8; 0] = [];
        assert(empty@ =~= Seq::<u8>::empty());
        Document::parse_with_password(data, empty.as_slice())
    }

    /// Parse `data`, supplying a user or owner `password` for encrypted files.
    /// The password is ignored for unencrypted documents.
    pub fn parse_with_password(data: &'a [u8], password: &[u8]) -> (r: Result<Document<'a>, TurboParsePdfError>)
        ensures
            match document_spec(data@, password@) {
                Ok((v, x, d)) => r matches Ok(doc) && doc.version_view() == v && doc.res().bytes() == data@
                    && doc.res().xref_view() == x && doc.res().dec() == d,
                Err(c) => r matches Err(e) && e.code == c,
            },
    {
        let version = parse_header(data)?;
        let xref = read_xref(data)?;
        require_root(xref.trailer())?;
        let mut resolver = Resolver::new(data, xref);
        setup_decryption(&mut resolver, password)?;
        Ok(Document { resolver, version })
    }

    /// The PDF version string from the header (e.g. `1.4`, `2.0`).
    pub fn version(&self) -> (r: &str)
        ensures
            r@ == self.version_view(),
    {
        self.version.as_str()
    }

    /// The document trailer dictionary.
    pub fn trailer(&self) -> (r: &Dictionary)
        ensures
            r@ == self.res().xref_view().1,
    {
        self.resolver.xref().trailer()
    }

    /// The number of cross-reference entries (a coarse object count).
    pub fn object_count(&self) -> (r: usize)
        ensures
            r == self.res().xref_view().0.len(),
    {
        self.resolver.xref().len()
    }

    /// Fetch an indirect object by reference.
    pub fn get(&self, r: ObjRef) -> (o: Result<Object, TurboParsePdfError>)
        ensures
            agrees(o, self.res().spec_load(r.num)),
    {
        self.resolver.get(r)
    }

    /// Resolve a possibly-indirect value to a concrete object.
    pub fn resolve(&self, obj: &Object) -> (o: Result<Object, TurboParsePdfError>)
        ensures
            agrees(o, self.res().spec_resolve(obj@)),
    {
        self.resolver.resolve(obj)
    }

    /// The document catalog (`/Root`), resolved to its dictionary.
    pub fn catalog(&self) -> (o: Result<Dictionary, TurboParsePdfError>)
        ensures
            match lookup(self.res().xref_view().1, "Root"@) {
                None => o matches Err(e) && e.code == ErrorCode::MissingTrailer,
                Some(root) => match self.res().spec_resolve(root) {
                    Ok(Val::Dict(d)) => o matches Ok(x) && x@ == d,
                    Ok(Val::Stream(d, _)) => o matches Ok(x) && x@ == d,
                    Ok(_) => o matches Err(e) && e.code == ErrorCode::InvalidObject,
                    Err(c) => o matches Err(e) && e.code == c,
                },
            },
    {
        let root = match self.trailer().get("Root") {
            Some(r) => r.clone(),
            None => return Err(missing_root()),
        };
        self.resolver.resolve_dict(&root)
    }

    /// The document's pages, flattened in reading order with inherited
    /// attributes (`/MediaBox`, `/Resources`, `/Rotate`) resolved.
    pub fn pages(&self) -> (o: Result<Vec<Page>, TurboParsePdfError>)
        ensures
            match lookup(self.res().xref_view().1, "Root"@) {
                None => o matches Err(e) && e.code == ErrorCode::MissingTrailer,
                Some(root) => match dict_res(self.res(), root) {
                    Err(c) => o matches Err(e) && e.code == c,
                    Ok(cat) => match collect_spec(self.res(), cat) {
                        Ok(ps) => o matches Ok(v) && views(v@) == ps,
                        Err(c) => o matches Err(e) && e.code == c,
                    },
                },
            },
    {
        let cat = self.catalog()?;
        collect_pages(&self.resolver, &cat)
    }

    /// Borrow the underlying resolver (used by higher layers).
    pub fn resolver(&self) -> (r: &Resolver<'a>)
        ensures
            *r == self.res(),
    {
        &self.resolver
    }
}

} // verus!

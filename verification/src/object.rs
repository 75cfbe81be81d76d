//! The COS (Carousel Object System) object model — the typed value tree every
//! PDF body object parses into.
//!
//! A PDF file is a graph of primitive objects: booleans, numbers (integer and
//! real), strings, names, arrays, dictionaries, the null object, plus streams (a
//! dictionary followed by raw bytes) and indirect references (`n g R`).
//! [`Object`] is that closed set; [`Dictionary`] preserves key insertion order
//! so that parser output is reproducible.

use vstd::prelude::*;
use vstd::string::StringSliceAdditionalSpecFns;
use vstd::utf8::encode_utf8_decode_utf8;

verus! {

/// An indirect-object reference: object number + generation (`num gen R`).
#[derive(Debug, Clone, Copy, PartialEq, Eq, Structural, Hash, PartialOrd, Ord)]
pub struct ObjRef {
    pub num: u32,
    pub gen: u16,
}

impl ObjRef {
    /// Construct a reference from its object and generation numbers.
    pub fn new(num: u32, gen: u16) -> (r: ObjRef)
        ensures
            r.num == num,
            r.gen == gen,
    {
        ObjRef { num, gen }
    }
}

/// A real number as written in the file. Short decimals (`[+-]digits.digits`
/// whose digits fit an `i64`, with at most 22 fractional digits) are kept exactly
/// as `mantissa / 10^scale`; any other numeric literal is kept as its text.
#[derive(Debug, PartialEq)]
pub enum Real {
    Decimal { mantissa: i64, scale: u32 },
    Literal(Vec<u8>),
}

/// A stream object: a dictionary plus the raw (still filter-encoded) body bytes.
#[derive(Debug, PartialEq)]
pub struct Stream {
    pub dict: Dictionary,
    /// Raw bytes between `stream` and `endstream`, before any filter is applied.
    pub data: Vec<u8>,
}

/// A COS object: the closed set of PDF value types.
#[derive(Debug, PartialEq)]
pub enum Object {
    Null,
    Boolean(bool),
    Integer(i64),
    Real(Real),
    /// A string's decoded bytes (literal `(...)` or hex `<...>`).
    String(Vec<u8>),
    /// A name without its leading `/` (e.g. `Type`, `Pages`).
    Name(String),
    Array(Vec<Object>),
    Dictionary(Dictionary),
    Stream(Stream),
    Reference(ObjRef),
}

/// The mathematical value of a real.
pub enum RealVal {
    Decimal(i64, u32),
    Literal(Seq<u8>),
}

/// The mathematical value of an object.
pub enum Val {
    Null,
    Boolean(bool),
    Integer(i64),
    Real(RealVal),
    Str(Seq<u8>),
    Name(Seq<char>),
    Array(Seq<Val>),
    Dict(Seq<(Seq<char>, Val)>),
    Stream(Seq<(Seq<char>, Val)>, Seq<u8>),
    Reference(ObjRef),
}

pub open spec fn real_val(x: Real) -> RealVal {
    match x {
        Real::Decimal { mantissa, scale } => RealVal::Decimal(mantissa, scale),
        Real::Literal(t) => RealVal::Literal(t@),
    }
}

/// The value of an object.
pub open spec fn object_val(o: Object) -> Val
    decreases o,
{
    match o {
        Object::Null => Val::Null,
        Object::Boolean(b) => Val::Boolean(b),
        Object::Integer(n) => Val::Integer(n),
        Object::Real(x) => Val::Real(real_val(x)),
        Object::String(s) => Val::Str(s@),
        Object::Name(n) => Val::Name(n@),
        Object::Array(items) => Val::Array(
            Seq::new(
                items@.len(),
                |i: int|
                    if 0 <= i < items@.len() {
                        object_val(items@[i])
                    } else {
                        Val::Null
                    },
            ),
        ),
        Object::Dictionary(d) => Val::Dict(dict_val(d)),
        Object::Stream(s) => Val::Stream(dict_val(s.dict), s.data@),
        Object::Reference(r) => Val::Reference(r),
    }
}

/// The entries of a dictionary as (key text, value) pairs.
pub closed spec fn dict_val(d: Dictionary) -> Seq<(Seq<char>, Val)>
    decreases d,
{
    entries_val(d.entries@)
}

/// A sequence of (key, object) entries as (key text, value) pairs.
pub open spec fn entries_val(entries: Seq<(String, Object)>) -> Seq<(Seq<char>, Val)>
    decreases entries,
{
    Seq::new(
        entries.len(),
        |i: int|
            if 0 <= i < entries.len() {
                (entries[i].0@, object_val(entries[i].1))
            } else {
                (Seq::empty(), Val::Null)
            },
    )
}

impl View for Object {
    type V = Val;

    open spec fn view(&self) -> Val {
        object_val(*self)
    }
}

impl View for Dictionary {
    type V = Seq<(Seq<char>, Val)>;

    open spec fn view(&self) -> Seq<(Seq<char>, Val)> {
        dict_val(*self)
    }
}

/// The values of a sequence of objects.
pub open spec fn vals(s: Seq<Object>) -> Seq<Val> {
    s.map_values(|o: Object| o@)
}

/// The value stored under `key` in a sequence of entries (the first match).
pub open spec fn lookup(entries: Seq<(Seq<char>, Val)>, key: Seq<char>) -> Option<Val>
    decreases entries.len(),
{
    if entries.len() == 0 {
        None
    } else if entries[0].0 == key {
        Some(entries[0].1)
    } else {
        lookup(entries.drop_first(), key)
    }
}

/// The keys of a sequence of entries, in order.
pub open spec fn keys_of(entries: Seq<(Seq<char>, Val)>) -> Seq<Seq<char>> {
    entries.map_values(|e: (Seq<char>, Val)| e.0)
}

/// No key occurs twice.
pub open spec fn keys_unique(entries: Seq<(Seq<char>, Val)>) -> bool {
    forall|i: int, j: int|
        0 <= i < entries.len() && 0 <= j < entries.len() && i != j ==> #[trigger] entries[i].0
            != #[trigger] entries[j].0
}

/// The entries after storing `v` under `k`: the slot of an existing `k` is
/// overwritten in place, otherwise the pair is appended.
pub open spec fn entries_insert(e: Seq<(Seq<char>, Val)>, k: Seq<char>, v: Val) -> Seq<
    (Seq<char>, Val),
>
    decreases e.len(),
{
    if e.len() == 0 {
        seq![(k, v)]
    } else if e[0].0 == k {
        e.update(0, (k, v))
    } else {
        seq![e[0]] + entries_insert(e.drop_first(), k, v)
    }
}

/// Inserting a key that is not present appends it.
pub proof fn lemma_entries_insert_absent(e: Seq<(Seq<char>, Val)>, k: Seq<char>, v: Val)
    requires
        forall|i: int| 0 <= i < e.len() ==> (#[trigger] e[i]).0 != k,
    ensures
        entries_insert(e, k, v) == e.push((k, v)),
    decreases e.len(),
{
    if e.len() > 0 {
        let rest = e.drop_first();
        assert forall|i: int| 0 <= i < rest.len() implies (#[trigger] rest[i]).0 != k by {
            assert(rest[i] == e[i + 1]);
        }
        lemma_entries_insert_absent(rest, k, v);
        assert(seq![e[0]] + rest.push((k, v)) =~= e.push((k, v)));
    }
}

/// Inserting a key present at `i` (its first occurrence) replaces that slot.
pub proof fn lemma_entries_insert_at(e: Seq<(Seq<char>, Val)>, k: Seq<char>, v: Val, i: int)
    requires
        0 <= i < e.len(),
        e[i].0 == k,
        forall|j: int| 0 <= j < i ==> (#[trigger] e[j]).0 != k,
    ensures
        entries_insert(e, k, v) == e.update(i, (k, v)),
    decreases e.len(),
{
    if i > 0 {
        let rest = e.drop_first();
        assert forall|j: int| 0 <= j < i - 1 implies (#[trigger] rest[j]).0 != k by {
            assert(rest[j] == e[j + 1]);
        }
        assert(rest[i - 1] == e[i]);
        lemma_entries_insert_at(rest, k, v, i - 1);
        assert(seq![e[0]] + rest.update(i - 1, (k, v)) =~= e.update(i, (k, v)));
    }
}

/// Arrays are valued element-wise.
pub proof fn lemma_array_val(items: Vec<Object>)
    ensures
        Object::Array(items)@ == Val::Array(vals(items@)),
{
    let o = Object::Array(items);
    assert(o@ is Array);
    assert(o@->Array_0 =~= vals(items@));
}

/// Byte-wise equality of two byte slices.
pub fn bytes_eq(a: &[u8], b: &[u8]) -> (r: bool)
    ensures
        r == (a@ == b@),
{
    if a.len() != b.len() {
        return false;
    }
    let n = a.len();
    let mut i: usize = 0;
    while i < n
        invariant
            n == a@.len(),
            a@.len() == b@.len(),
            i <= n,
            forall|j: int| 0 <= j < i ==> a@[j] == b@[j],
        decreases n - i,
    {
        if a[i] != b[i] {
            return false;
        }
        i = i + 1;
    }
    assert(a@ =~= b@);
    true
}

/// With unique keys, looking up the key stored at `i` finds that entry's value.
pub proof fn lemma_lookup_index(entries: Seq<(Seq<char>, Val)>, key: Seq<char>, i: int)
    requires
        keys_unique(entries),
        0 <= i < entries.len(),
        entries[i].0 == key,
    ensures
        lookup(entries, key) == Some(entries[i].1),
    decreases entries.len(),
{
    if i > 0 {
        assert(entries[0].0 != entries[i].0);
        let rest = entries.drop_first();
        assert(rest[i - 1] == entries[i]);
        assert forall|a: int, b: int|
            0 <= a < rest.len() && 0 <= b < rest.len() && a != b implies #[trigger] rest[a].0
            != #[trigger] rest[b].0 by {
            assert(rest[a] == entries[a + 1]);
            assert(rest[b] == entries[b + 1]);
        }
        lemma_lookup_index(rest, key, i - 1);
    }
}

/// Looking up a key that no entry holds finds nothing.
pub proof fn lemma_lookup_absent(entries: Seq<(Seq<char>, Val)>, key: Seq<char>)
    requires
        forall|i: int| 0 <= i < entries.len() ==> (#[trigger] entries[i]).0 != key,
    ensures
        lookup(entries, key) is None,
    decreases entries.len(),
{
    if entries.len() > 0 {
        let rest = entries.drop_first();
        assert forall|i: int| 0 <= i < rest.len() implies (#[trigger] rest[i]).0 != key by {
            assert(rest[i] == entries[i + 1]);
        }
        lemma_lookup_absent(rest, key);
    }
}

/// Byte-wise equality of two strings, which is equality of their text.
pub fn str_eq(a: &str, b: &str) -> (r: bool)
    ensures
        r == (a@ == b@),
{
    let x = a.as_bytes();
    let y = b.as_bytes();
    proof {
        encode_utf8_decode_utf8(a@);
        encode_utf8_decode_utf8(b@);
    }
    if x.len() != y.len() {
        return false;
    }
    let mut i: usize = 0;
    while i < x.len()
        invariant
            x@.len() == y@.len(),
            i <= x@.len(),
            x@ == a.spec_bytes(),
            y@ == b.spec_bytes(),
            forall|j: int| 0 <= j < i ==> x@[j] == y@[j],
        decreases x@.len() - i,
    {
        if x[i] != y[i] {
            assert(x@ != y@);
            return false;
        }
        i = i + 1;
    }
    assert(x@ =~= y@);
    true
}

/// A PDF dictionary: an order-preserving map from name keys to objects.
#[derive(Debug, PartialEq)]
pub struct Dictionary {
    entries: Vec<(String, Object)>,
}

/// A copy of a byte slice.
pub fn copy_bytes(v: &[u8]) -> (r: Vec<u8>)
    ensures
        r@ == v@,
{
    let mut out: Vec<u8> = Vec::with_capacity(v.len());
    let mut i: usize = 0;
    while i < v.len()
        invariant
            i <= v@.len(),
            out@ == v@.take(i as int),
        decreases v@.len() - i,
    {
        out.push(v[i]);
        i = i + 1;
        proof {
            assert(out@ =~= v@.take(i as int));
        }
    }
    assert(v@.take(v@.len() as int) =~= v@);
    out
}

fn clone_real(x: &Real) -> (r: Real)
    ensures
        real_val(r) == real_val(*x),
{
    match x {
        Real::Decimal { mantissa, scale } => Real::Decimal { mantissa: *mantissa, scale: *scale },
        Real::Literal(t) => Real::Literal(copy_bytes(t.as_slice())),
    }
}

#[verifier::loop_isolation(false)]
fn clone_object(o: &Object) -> (r: Object)
    ensures
        r@ == o@,
    decreases o,
{
    match o {
        Object::Null => Object::Null,
        Object::Boolean(b) => Object::Boolean(*b),
        Object::Integer(n) => Object::Integer(*n),
        Object::Real(x) => Object::Real(clone_real(x)),
        Object::String(s) => Object::String(copy_bytes(s.as_slice())),
        Object::Name(n) => Object::Name(n.clone()),
        Object::Array(items) => {
            let mut out: Vec<Object> = Vec::with_capacity(items.len());
            let mut i: usize = 0;
            while i < items.len()
                invariant
                    i <= items@.len(),
                    out@.len() == i,
                    forall|j: int| 0 <= j < i ==> (#[trigger] out@[j])@ == items@[j]@,
                decreases items@.len() - i,
            {
                proof {
                    vstd::std_specs::vec::axiom_vec_index_decreases(*items, i as int);
                    assert(decreases_to!(*o => *items));
                }
                let c = clone_object(&items[i]);
                out.push(c);
                i = i + 1;
            }
            let r = Object::Array(out);
            assert(r@ == o@) by {
                if let (Val::Array(a), Val::Array(b)) = (r@, o@) {
                    assert(a =~= b);
                }
            }
            r
        },
        Object::Dictionary(d) => Object::Dictionary(clone_dict(d)),
        Object::Stream(st) => Object::Stream(
            Stream { dict: clone_dict(&st.dict), data: copy_bytes(st.data.as_slice()) },
        ),
        Object::Reference(x) => Object::Reference(*x),
    }
}

fn clone_dict(d: &Dictionary) -> (r: Dictionary)
    ensures
        r@ == d@,
    decreases d,
{
    proof {
        use_type_invariant(d);
    }
    let mut out: Vec<(String, Object)> = Vec::with_capacity(d.entries.len());
    let mut i: usize = 0;
    while i < d.entries.len()
        invariant
            i <= d.entries@.len(),
            keys_unique(d@),
            out@.len() == i,
            forall|j: int|
                0 <= j < i ==> (#[trigger] out@[j]).0@ == d.entries@[j].0@ && out@[j].1@
                    == d.entries@[j].1@,
        decreases d.entries@.len() - i,
    {
        let v = clone_object(&d.entries[i].1);
        out.push((d.entries[i].0.clone(), v));
        i = i + 1;
    }
    assert(entries_val(out@) =~= d@);
    let r = Dictionary { entries: out };
    r
}

impl Clone for Real {
    fn clone(&self) -> (r: Real)
        ensures
            real_val(r) == real_val(*self),
    {
        clone_real(self)
    }
}

impl Clone for Object {
    fn clone(&self) -> (r: Object)
        ensures
            r@ == self@,
    {
        clone_object(self)
    }
}

impl Clone for Dictionary {
    fn clone(&self) -> (r: Dictionary)
        ensures
            r@ == self@,
    {
        clone_dict(self)
    }
}

impl Clone for Stream {
    fn clone(&self) -> (r: Stream)
        ensures
            r.dict@ == self.dict@,
            r.data@ == self.data@,
    {
        Stream { dict: clone_dict(&self.dict), data: copy_bytes(self.data.as_slice()) }
    }
}

impl Dictionary {
    #[verifier::type_invariant]
    spec fn inv(self) -> bool {
        keys_unique(self@)
    }

    /// The keys, in insertion order.
    pub open spec fn key_seq(&self) -> Seq<Seq<char>> {
        keys_of(self@)
    }

    /// The value stored under `key`.
    pub open spec fn spec_get(&self, key: Seq<char>) -> Option<Val> {
        lookup(self@, key)
    }

    /// An empty dictionary.
    pub fn new() -> (r: Dictionary)
        ensures
            r@.len() == 0,
    {
        let r = Dictionary { entries: Vec::new() };
        assert(r@ =~= Seq::empty());
        r
    }

    /// Store `value` under `key`. A duplicate key keeps the last value, in the
    /// slot of the first insertion.
    #[verifier::loop_isolation(false)]
    pub fn insert(&mut self, key: &str, value: Object)
        ensures
            final(self)@ == entries_insert(old(self)@, key@, value@),
            forall|k: Seq<char>| #[trigger]
                final(self).spec_get(k) == if k == key@ {
                    Some(value@)
                } else {
                    old(self).spec_get(k)
                },
            final(self).key_seq() == if old(self).spec_get(key@) is Some {
                old(self).key_seq()
            } else {
                old(self).key_seq().push(key@)
            },
    {
        proof {
            use_type_invariant(&*self);
        }
        let ghost old_view = self@;
        let ghost value_view = value@;
        let mut entries: Vec<(String, Object)> = Vec::new();
        std::mem::swap(&mut entries, &mut self.entries);
        let ghost old_entries = entries@;
        assert(keys_unique(old_view));
        let mut i: usize = 0;
        while i < entries.len()
            invariant
                i <= entries@.len(),
                entries@ == old_entries,
                old_view == entries_val(entries@),
                keys_unique(old_view),
                forall|j: int| 0 <= j < i ==> (#[trigger] old_view[j]).0 != key@,
            decreases entries@.len() - i,
        {
            if str_eq(entries[i].0.as_str(), key) {
                let k = entries[i].0.clone();
                entries.set(i, (k, value));
                proof {
                    let nv = entries_val(entries@);
                    assert(entries@ == old_entries.update(i as int, (k, value)));
                    assert forall|j: int| 0 <= j < nv.len() implies nv[j] == old_view.update(
                        i as int,
                        (key@, value_view),
                    )[j] by {
                        if j != i {
                            assert(entries@[j] == old_entries[j]);
                            assert(nv[j] == old_view[j]);
                        } else {
                            assert(entries@[j] == (k, value));
                            assert(k@ == key@);
                            assert(nv[j] == (k@, object_val(value)));
                        }
                    }
                    assert(nv =~= old_view.update(i as int, (key@, value_view)));
                    assert(keys_of(nv) =~= keys_of(old_view));
                    assert(keys_unique(nv)) by {
                        assert forall|a: int, b: int|
                            0 <= a < nv.len() && 0 <= b < nv.len() && a != b implies #[trigger] nv[a].0
                            != #[trigger] nv[b].0 by {
                            assert(keys_of(nv)[a] == keys_of(old_view)[a]);
                            assert(keys_of(nv)[b] == keys_of(old_view)[b]);
                        }
                    }
                    lemma_lookup_index(nv, key@, i as int);
                    lemma_lookup_index(old_view, key@, i as int);
                    lemma_entries_insert_at(old_view, key@, value_view, i as int);
                    assert forall|k: Seq<char>| k != key@ implies lookup(nv, k) == lookup(old_view, k) by {
                        if exists|j: int| 0 <= j < old_view.len() && old_view[j].0 == k {
                            let j = choose|j: int| 0 <= j < old_view.len() && old_view[j].0 == k;
                            assert(keys_of(nv)[j] == keys_of(old_view)[j]);
                            lemma_lookup_index(nv, k, j);
                            lemma_lookup_index(old_view, k, j);
                        } else {
                            assert forall|j: int| 0 <= j < nv.len() implies (#[trigger] nv[j]).0 != k by {
                                assert(keys_of(nv)[j] == keys_of(old_view)[j]);
                            }
                            lemma_lookup_absent(nv, k);
                            lemma_lookup_absent(old_view, k);
                        }
                    }
                }
                let d = Dictionary { entries };
                *self = d;
                return;
            }
            i = i + 1;
        }
        entries.push((key.to_owned(), value));
        proof {
            let nv = entries_val(entries@);
            assert(nv =~= old_view.push((key@, value_view)));
            assert(keys_of(nv) =~= keys_of(old_view).push(key@));
            lemma_lookup_absent(old_view, key@);
            lemma_entries_insert_absent(old_view, key@, value_view);
            assert(keys_unique(nv)) by {
                assert forall|a: int, b: int|
                    0 <= a < nv.len() && 0 <= b < nv.len() && a != b implies #[trigger] nv[a].0
                    != #[trigger] nv[b].0 by {
                    if a < old_view.len() && b < old_view.len() {
                        assert(nv[a] == old_view[a]);
                        assert(nv[b] == old_view[b]);
                    } else if a < old_view.len() {
                        assert(nv[a] == old_view[a]);
                    } else {
                        assert(nv[b] == old_view[b]);
                    }
                }
            }
            lemma_lookup_index(nv, key@, old_view.len() as int);
            assert forall|k: Seq<char>| k != key@ implies lookup(nv, k) == lookup(old_view, k) by {
                if exists|j: int| 0 <= j < old_view.len() && old_view[j].0 == k {
                    let j = choose|j: int| 0 <= j < old_view.len() && old_view[j].0 == k;
                    assert(nv[j] == old_view[j]);
                    lemma_lookup_index(nv, k, j);
                    lemma_lookup_index(old_view, k, j);
                } else {
                    assert forall|j: int| 0 <= j < nv.len() implies (#[trigger] nv[j]).0 != k by {
                        if j < old_view.len() {
                            assert(nv[j] == old_view[j]);
                        }
                    }
                    lemma_lookup_absent(nv, k);
                    lemma_lookup_absent(old_view, k);
                }
            }
        }
        let d = Dictionary { entries };
        *self = d;
    }

    /// Look up a value by key.
    pub fn get(&self, key: &str) -> (r: Option<&Object>)
        ensures
            r matches Some(v) ==> self.spec_get(key@) == Some(v@),
            r is None ==> self.spec_get(key@) is None,
    {
        proof {
            use_type_invariant(self);
        }
        let mut i: usize = 0;
        while i < self.entries.len()
            invariant
                i <= self.entries@.len(),
                keys_unique(self@),
                forall|j: int| 0 <= j < i ==> (#[trigger] self@[j]).0 != key@,
            decreases self.entries@.len() - i,
        {
            if str_eq(self.entries[i].0.as_str(), key) {
                proof {
                    lemma_lookup_index(self@, key@, i as int);
                }
                return Some(&self.entries[i].1);
            }
            i = i + 1;
        }
        proof {
            lemma_lookup_absent(self@, key@);
        }
        None
    }

    /// True when the dictionary has no entries.
    pub fn is_empty(&self) -> (r: bool)
        ensures
            r == (self@.len() == 0),
    {
        self.entries.len() == 0
    }

    /// The number of entries.
    pub fn len(&self) -> (r: usize)
        ensures
            r == self@.len(),
    {
        self.entries.len()
    }

    /// The (key, value) pairs in insertion order.
    pub fn iter(&self) -> (r: &[(String, Object)])
        ensures
            keys_unique(self@),
            r@.len() == self@.len(),
            forall|i: int|
                0 <= i < r@.len() ==> (#[trigger] r@[i]).0@ == self@[i].0 && r@[i].1@
                    == self@[i].1,
    {
        proof {
            use_type_invariant(self);
        }
        self.entries.as_slice()
    }
}

impl Object {
    /// The integer value, if this is an integer.
    pub fn as_integer(&self) -> (r: Option<i64>)
        ensures
            r == (match self@ {
                Val::Integer(n) => Some(n),
                _ => None::<i64>,
            }),
    {
        match self {
            Object::Integer(n) => Some(*n),
            _ => None,
        }
    }

    /// The boolean value, if this is a boolean.
    pub fn as_bool(&self) -> (r: Option<bool>)
        ensures
            r == (match self@ {
                Val::Boolean(b) => Some(b),
                _ => None::<bool>,
            }),
    {
        match self {
            Object::Boolean(b) => Some(*b),
            _ => None,
        }
    }

    /// The name text (without `/`), if this is a name.
    pub fn as_name(&self) -> (r: Option<&str>)
        ensures
            self@ is Name ==> (r matches Some(s) && s@ == self@->Name_0),
            !(self@ is Name) ==> r is None,
    {
        match self {
            Object::Name(n) => Some(n.as_str()),
            _ => None,
        }
    }

    /// The decoded string bytes, if this is a string.
    pub fn as_string(&self) -> (r: Option<&[u8]>)
        ensures
            self@ is Str ==> (r matches Some(s) && s@ == self@->Str_0),
            !(self@ is Str) ==> r is None,
    {
        match self {
            Object::String(s) => Some(s.as_slice()),
            _ => None,
        }
    }

    /// The elements, if this is an array.
    pub fn as_array(&self) -> (r: Option<&[Object]>)
        ensures
            self@ is Array ==> (r matches Some(s) && vals(s@) == self@->Array_0),
            !(self@ is Array) ==> r is None,
    {
        match self {
            Object::Array(a) => {
                assert(vals(a@) =~= self@->Array_0);
                Some(a.as_slice())
            },
            _ => None,
        }
    }

    /// The dictionary of a dictionary or of a stream.
    pub fn as_dict(&self) -> (r: Option<&Dictionary>)
        ensures
            self@ is Dict ==> (r matches Some(d) && d@ == self@->Dict_0),
            self@ is Stream ==> (r matches Some(d) && d@ == self@->Stream_0),
            !(self@ is Dict || self@ is Stream) ==> r is None,
    {
        match self {
            Object::Dictionary(d) => Some(d),
            Object::Stream(s) => Some(&s.dict),
            _ => None,
        }
    }

    /// The stream, if this is a stream.
    pub fn as_stream(&self) -> (r: Option<&Stream>)
        ensures
            self@ is Stream ==> (r matches Some(s) && s.dict@ == self@->Stream_0 && s.data@
                == self@->Stream_1),
            !(self@ is Stream) ==> r is None,
    {
        match self {
            Object::Stream(s) => Some(s),
            _ => None,
        }
    }

    /// The reference, if this is a reference.
    pub fn as_reference(&self) -> (r: Option<ObjRef>)
        ensures
            r == (match self@ {
                Val::Reference(x) => Some(x),
                _ => None::<ObjRef>,
            }),
    {
        match self {
            Object::Reference(x) => Some(*x),
            _ => None,
        }
    }

    /// True when this is the null object.
    pub fn is_null(&self) -> (r: bool)
        ensures
            r == (self@ is Null),
    {
        match self {
            Object::Null => true,
            _ => false,
        }
    }
}

} // verus!

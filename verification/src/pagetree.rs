//! Page-tree traversal (ISO 32000-1 §7.7.3).
//!
//! The catalog's `/Pages` is the root of a tree of `/Pages` nodes (with `/Kids`)
//! and `/Page` leaves. Several attributes — `/MediaBox`, `/Resources`,
//! `/Rotate` — are *inheritable*: a leaf without its own value uses the nearest
//! ancestor's. [`collect_pages`] flattens the tree into leaves in reading order
//! with those attributes resolved, and [`page_content`] concatenates a page's
//! `/Contents` into one decoded byte stream.

use std::collections::HashSet;

use vstd::prelude::*;

use crate::error::{ErrorCode, TurboParsePdfError};
use crate::filter::{decode_stream, decode_stream_spec};
use crate::object::{lookup, vals, Dictionary, Object, Val};
use crate::resolver::{Resolver, MAX_DEPTH};

verus! {

broadcast use vstd::std_specs::hash::group_hash_axioms;

fn bad(msg: &str) -> (e: TurboParsePdfError)
    ensures
        e.code == ErrorCode::InvalidObject,
{
    TurboParsePdfError::new(ErrorCode::InvalidObject, msg)
}

/// The deepest page-tree nesting that is walked.
pub const MAX_TREE_DEPTH: u32 = 64;

/// A flattened page leaf with its inherited attributes resolved. The media box
/// is the four number objects of the effective `/MediaBox`.
#[derive(Debug, Clone)]
pub struct Page {
    pub dict: Dictionary,
    pub media_box: Vec<Object>,
    pub resources: Dictionary,
    pub rotate: i64,
}

/// The content of a page: dictionary, media box values, resources, rotation.
pub open spec fn page_view(p: Page) -> (Seq<(Seq<char>, Val)>, Seq<Val>, Seq<(Seq<char>, Val)>, i64) {
    (p.dict@, vals(p.media_box@), p.resources@, p.rotate)
}

/// Inheritable attributes carried down the page tree.
pub struct Inherited {
    pub media_box: Vec<Object>,
    pub resources: Object,
    pub rotate: i64,
}

/// The content of inherited attributes.
pub open spec fn inh_view(i: Inherited) -> (Seq<Val>, Val, i64) {
    (vals(i.media_box@), i.resources@, i.rotate)
}

/// The document-level defaults: US-Letter media box, no resources, 0°.
pub open spec fn root_inh() -> (Seq<Val>, Val, i64) {
    (seq![Val::Integer(0), Val::Integer(0), Val::Integer(612), Val::Integer(792)], Val::Null, 0)
}

/// The number values among `items`, in order.
pub open spec fn numbers_of(items: Seq<Val>) -> Seq<Val>
    decreases items.len(),
{
    if items.len() == 0 {
        seq![]
    } else if items.last() is Integer || items.last() is Real {
        numbers_of(items.drop_last()).push(items.last())
    } else {
        numbers_of(items.drop_last())
    }
}

/// A node's own `/MediaBox`: an array (after resolution) holding exactly four
/// numbers.
pub open spec fn rect_spec(r: Resolver, node: Seq<(Seq<char>, Val)>) -> Option<Seq<Val>> {
    match lookup(node, "MediaBox"@) {
        None => None,
        Some(v) => match r.spec_resolve(v) {
            Ok(Val::Array(items)) => if numbers_of(items).len() == 4 {
                Some(numbers_of(items))
            } else {
                None
            },
            _ => None,
        },
    }
}

/// A node's own `/Rotate` (after resolution), normalized into `0..360`.
pub open spec fn rotate_spec(r: Resolver, node: Seq<(Seq<char>, Val)>) -> Option<i64> {
    match lookup(node, "Rotate"@) {
        None => None,
        Some(v) => match r.spec_resolve(v) {
            Ok(Val::Integer(n)) => Some((n % 360) as i64),
            _ => None,
        },
    }
}

/// A node's attributes overlaid on the inherited ones.
pub open spec fn descend_spec(r: Resolver, inh: (Seq<Val>, Val, i64), node: Seq<(Seq<char>, Val)>) -> (
    Seq<Val>,
    Val,
    i64,
) {
    (
        match rect_spec(r, node) {
            Some(m) => m,
            None => inh.0,
        },
        match lookup(node, "Resources"@) {
            Some(v) => v,
            None => inh.1,
        },
        match rotate_spec(r, node) {
            Some(n) => n,
            None => inh.2,
        },
    )
}

/// The resources dictionary a page gets: the inherited value resolved to a
/// dictionary, or an empty one.
pub open spec fn page_resources(r: Resolver, res: Val) -> Seq<(Seq<char>, Val)> {
    match r.spec_resolve(res) {
        Ok(Val::Dict(d)) => d,
        Ok(Val::Stream(d, _)) => d,
        _ => seq![],
    }
}

/// A leaf page as produced from node `node` with attributes `inh`.
pub open spec fn page_spec(r: Resolver, node: Seq<(Seq<char>, Val)>, inh: (Seq<Val>, Val, i64)) -> (
    Seq<(Seq<char>, Val)>,
    Seq<Val>,
    Seq<(Seq<char>, Val)>,
    i64,
) {
    (node, inh.0, page_resources(r, inh.1), inh.2)
}

/// A dictionary resolved from a value.
pub open spec fn dict_res(r: Resolver, v: Val) -> Result<Seq<(Seq<char>, Val)>, ErrorCode> {
    match r.spec_resolve(v) {
        Ok(Val::Dict(d)) => Ok(d),
        Ok(Val::Stream(d, _)) => Ok(d),
        Ok(_) => Err(ErrorCode::InvalidObject),
        Err(c) => Err(c),
    }
}

/// The page leaves under `node` (depth `depth`), with the object numbers of
/// the children visited so far: a node with `/Kids` is a subtree, anything else
/// a leaf. Nesting past 64 fails.
pub open spec fn walk_spec(
    r: Resolver,
    node: Seq<(Seq<char>, Val)>,
    inh: (Seq<Val>, Val, i64),
    seen: Set<u32>,
    depth: int,
) -> Result<(Seq<(Seq<(Seq<char>, Val)>, Seq<Val>, Seq<(Seq<char>, Val)>, i64)>, Set<u32>), ErrorCode>
    decreases 65 - depth, 2int, 0int,
{
    if depth > 64 || depth < 0 {
        Err(ErrorCode::InvalidObject)
    } else {
        let here = descend_spec(r, inh, node);
        match lookup(node, "Kids"@) {
            Some(k) => match k {
                Val::Array(kids) => kids_from(r, kids, 0, here, seen, depth),
                _ => Err(ErrorCode::InvalidObject),
            },
            None => Ok((seq![page_spec(r, node, here)], seen)),
        }
    }
}

/// Attributes are inherited: a node without its own `/Resources`,
/// `/MediaBox` or `/Rotate` keeps its parent's; its own `/Resources` replaces
/// the parent's.
pub proof fn lemma_descend_inherits(r: Resolver, inh: (Seq<Val>, Val, i64), node: Seq<(Seq<char>, Val)>)
    ensures
        lookup(node, "Resources"@) is None ==> descend_spec(r, inh, node).1 == inh.1,
        lookup(node, "Resources"@) matches Some(v) ==> descend_spec(r, inh, node).1 == v,
        lookup(node, "MediaBox"@) is None ==> descend_spec(r, inh, node).0 == inh.0,
        lookup(node, "Rotate"@) is None ==> descend_spec(r, inh, node).2 == inh.2,
{
}

/// A node's own `/Rotate` (resolving to an integer `n`) replaces the inherited
/// one, normalized into `0..360` and congruent to `n` modulo 360; a node's own
/// `/MediaBox` holding exactly four numbers replaces the inherited one.
pub proof fn lemma_descend_overrides(r: Resolver, inh: (Seq<Val>, Val, i64), node: Seq<(Seq<char>, Val)>, v: Val)
    ensures
        lookup(node, "Rotate"@) == Some(v) ==> (r.spec_resolve(v) matches Ok(Val::Integer(n)) ==> {
            let rot = descend_spec(r, inh, node).2 as int;
            0 <= rot < 360 && (rot - n) % 360 == 0
        }),
        lookup(node, "MediaBox"@) == Some(v) ==> (r.spec_resolve(v) matches Ok(Val::Array(items)) ==> (numbers_of(items).len()
            == 4 ==> descend_spec(r, inh, node).0 == numbers_of(items))),
{
    if lookup(node, "Rotate"@) == Some(v) {
        if let Ok(Val::Integer(n)) = r.spec_resolve(v) {
            assert(0 <= n % 360 < 360);
            assert((n % 360 - n) % 360 == 0) by (nonlinear_arith);
        }
    }
}

/// A leaf page without its own `/Resources` gets the dictionary its ancestors
/// hand down (and, without its own `/MediaBox` or `/Rotate`, theirs too).
pub proof fn lemma_leaf_inherits_resources(
    r: Resolver,
    node: Seq<(Seq<char>, Val)>,
    inh: (Seq<Val>, Val, i64),
    seen: Set<u32>,
    depth: int,
    res: Seq<(Seq<char>, Val)>,
)
    requires
        0 <= depth <= 64,
        lookup(node, "Kids"@) is None,
        lookup(node, "Resources"@) is None,
        r.spec_resolve(inh.1) == Ok::<Val, ErrorCode>(Val::Dict(res)),
    ensures
        walk_spec(r, node, inh, seen, depth) matches Ok((ps, s)) && s == seen && ps.len() == 1 && ps[0].0 == node
            && ps[0].2 == res
            && (lookup(node, "MediaBox"@) is None ==> ps[0].1 == inh.0)
            && (lookup(node, "Rotate"@) is None ==> ps[0].3 == inh.2),
{
}

/// The children `kids[k..]` walked in order.
pub open spec fn kids_from(
    r: Resolver,
    kids: Seq<Val>,
    k: int,
    inh: (Seq<Val>, Val, i64),
    seen: Set<u32>,
    depth: int,
) -> Result<(Seq<(Seq<(Seq<char>, Val)>, Seq<Val>, Seq<(Seq<char>, Val)>, i64)>, Set<u32>), ErrorCode>
    decreases 65 - depth, 1int, kids.len() - k,
{
    if depth > 64 || depth < 0 || k < 0 || k >= kids.len() {
        Ok((seq![], seen))
    } else {
        match kid_spec(r, kids[k], inh, seen, depth) {
            Err(c) => Err(c),
            Ok((ps, seen2)) => match kids_from(r, kids, k + 1, inh, seen2, depth) {
                Err(c) => Err(c),
                Ok((qs, seen3)) => Ok((ps + qs, seen3)),
            },
        }
    }
}

/// One child: a reference already visited is skipped (a cycle guard);
/// otherwise it is resolved to a dictionary and walked one level deeper.
pub open spec fn kid_spec(
    r: Resolver,
    kid: Val,
    inh: (Seq<Val>, Val, i64),
    seen: Set<u32>,
    depth: int,
) -> Result<(Seq<(Seq<(Seq<char>, Val)>, Seq<Val>, Seq<(Seq<char>, Val)>, i64)>, Set<u32>), ErrorCode>
    decreases 65 - depth, 0int, 0int,
{
    if depth > 64 || depth < 0 {
        Ok((seq![], seen))
    } else {
        match kid {
            Val::Reference(x) => if seen.contains(x.num) {
                Ok((seq![], seen))
            } else {
                match dict_res(r, kid) {
                    Err(c) => Err(c),
                    Ok(kd) => walk_spec(r, kd, inh, seen.insert(x.num), depth + 1),
                }
            },
            _ => match dict_res(r, kid) {
                Err(c) => Err(c),
                Ok(kd) => walk_spec(r, kd, inh, seen, depth + 1),
            },
        }
    }
}

/// The pages under a catalog: its `/Pages` root resolved and walked.
pub open spec fn collect_spec(r: Resolver, catalog: Seq<(Seq<char>, Val)>) -> Result<
    Seq<(Seq<(Seq<char>, Val)>, Seq<Val>, Seq<(Seq<char>, Val)>, i64)>,
    ErrorCode,
> {
    match lookup(catalog, "Pages"@) {
        None => Err(ErrorCode::InvalidObject),
        Some(p) => match dict_res(r, p) {
            Err(c) => Err(c),
            Ok(root) => match walk_spec(r, root, root_inh(), Set::empty(), 0) {
                Err(c) => Err(c),
                Ok((ps, _)) => Ok(ps),
            },
        },
    }
}

/// The number objects among `items`, in order.
fn numbers_in(items: &[Object]) -> (r: Vec<Object>)
    ensures
        vals(r@) == numbers_of(vals(items@)),
{
    let mut out: Vec<Object> = Vec::new();
    let mut k: usize = 0;
    while k < items.len()
        invariant
            k <= items@.len(),
            vals(out@) == numbers_of(vals(items@).subrange(0, k as int)),
        decreases items@.len() - k,
    {
        proof {
            assert(vals(items@).subrange(0, k + 1).drop_last() =~= vals(items@).subrange(0, k as int));
        }
        match &items[k] {
            Object::Integer(_) | Object::Real(_) => {
                let ghost before = out@;
                out.push(items[k].clone());
                assert(vals(out@) =~= vals(before).push(items@[k as int]@));
            },
            _ => {},
        }
        k += 1;
    }
    assert(vals(items@).subrange(0, k as int) =~= vals(items@));
    out
}

/// A copy of a list of objects.
fn copy_objects(v: &[Object]) -> (r: Vec<Object>)
    ensures
        vals(r@) == vals(v@),
{
    let mut out: Vec<Object> = Vec::new();
    let mut k: usize = 0;
    while k < v.len()
        invariant
            k <= v@.len(),
            vals(out@) == vals(v@.subrange(0, k as int)),
        decreases v@.len() - k,
    {
        let ghost before = out@;
        let c = v[k].clone();
        assert(c@ == v@[k as int]@);
        out.push(c);
        assert(vals(out@) =~= vals(before).push(c@));
        assert(vals(v@.subrange(0, k + 1)) =~= vals(v@.subrange(0, k as int)).push(v@[k as int]@));
        k += 1;
    }
    assert(v@.subrange(0, k as int) =~= v@);
    out
}

/// Read a node's `/MediaBox` as four numbers.
fn read_rect(r: &Resolver, node: &Dictionary) -> (o: Option<Vec<Object>>)
    ensures
        match rect_spec(*r, node@) {
            Some(m) => o matches Some(v) && vals(v@) == m,
            None => o is None,
        },
{
    let v = match node.get("MediaBox") {
        Some(v) => v,
        None => return None,
    };
    let resolved = match r.resolve(v) {
        Ok(o) => o,
        Err(_) => return None,
    };
    match resolved {
        Object::Array(items) => {
            proof {
                crate::object::lemma_array_val(items);
            }
            let nums = numbers_in(items.as_slice());
            if nums.len() == 4 {
                Some(nums)
            } else {
                None
            }
        },
        _ => None,
    }
}

/// Read a node's `/Rotate` (normalized into `0..360`).
fn read_rotate(r: &Resolver, node: &Dictionary) -> (o: Option<i64>)
    ensures
        o == rotate_spec(*r, node@),
{
    let v = match node.get("Rotate") {
        Some(v) => v,
        None => return None,
    };
    let resolved = match r.resolve(v) {
        Ok(o) => o,
        Err(_) => return None,
    };
    match resolved.as_integer() {
        Some(n) => {
            let e: i64 = if n >= 0 {
                n % 360
            } else {
                let p: i64 = -(n + 1);
                let q: i64 = p % 360;
                assert(359 - q == n % 360) by (nonlinear_arith)
                    requires
                        p == -(n + 1),
                        p >= 0,
                        q == p % 360,
                ;
                359 - q
            };
            Some(e)
        },
        None => None,
    }
}

impl Inherited {
    /// The document-level defaults (US-Letter media box, no resources, 0°).
    pub fn root() -> (r: Inherited)
        ensures
            inh_view(r) == root_inh(),
    {
        let mut m: Vec<Object> = Vec::new();
        m.push(Object::Integer(0));
        m.push(Object::Integer(0));
        m.push(Object::Integer(612));
        m.push(Object::Integer(792));
        let r = Inherited { media_box: m, resources: Object::Null, rotate: 0 };
        assert(vals(r.media_box@) =~= root_inh().0);
        r
    }

    /// Overlay this node's own attributes on the inherited ones.
    pub fn descend(&self, r: &Resolver, node: &Dictionary) -> (o: Inherited)
        ensures
            inh_view(o) == descend_spec(*r, inh_view(*self), node@),
    {
        let media_box = match read_rect(r, node) {
            Some(m) => m,
            None => copy_objects(self.media_box.as_slice()),
        };
        let resources = match node.get("Resources") {
            Some(v) => v.clone(),
            None => self.resources.clone(),
        };
        let rotate = match read_rotate(r, node) {
            Some(n) => n,
            None => self.rotate,
        };
        Inherited { media_box, resources, rotate }
    }
}

/// The content of a list of pages.
pub open spec fn views(s: Seq<Page>) -> Seq<(Seq<(Seq<char>, Val)>, Seq<Val>, Seq<(Seq<char>, Val)>, i64)> {
    s.map_values(|p: Page| page_view(p))
}

/// Build a page leaf, resolving its inherited resources dictionary.
fn make_page(r: &Resolver, node: &Dictionary, inh: &Inherited) -> (p: Page)
    ensures
        page_view(p) == page_spec(*r, node@, inh_view(*inh)),
{
    let resources = match r.resolve_dict(&inh.resources) {
        Ok(d) => d,
        Err(_) => {
            let d = Dictionary::new();
            assert(d@ =~= Seq::<(Seq<char>, Val)>::empty());
            d
        },
    };
    Page { dict: node.clone(), media_box: copy_objects(inh.media_box.as_slice()), resources, rotate: inh.rotate }
}

/// Visit one node: recurse a `/Pages` subtree, or emit a `/Page` leaf.
fn walk(
    r: &Resolver,
    node: &Dictionary,
    inh: &Inherited,
    out: &mut Vec<Page>,
    seen: &mut HashSet<u32>,
    depth: u32,
) -> (res: Result<(), TurboParsePdfError>)
    ensures
        match walk_spec(*r, node@, inh_view(*inh), old(seen)@, depth as int) {
            Ok((ps, s2)) => res is Ok && views(final(out)@) == views(old(out)@) + ps && final(seen)@ == s2,
            Err(c) => res matches Err(e) && e.code == c,
        },
    decreases 65 - depth, 2int, 0int,
{
    if depth > MAX_TREE_DEPTH {
        return Err(bad("page tree too deep"));
    }
    let here = inh.descend(r, node);
    if node.get("Kids").is_some() {
        walk_kids(r, node, &here, out, seen, depth)
    } else {
        let ghost before = out@;
        let p = make_page(r, node, &here);
        out.push(p);
        assert(views(out@) =~= views(before) + seq![page_view(p)]);
        Ok(())
    }
}

/// Recurse each child of a `/Pages` node.
fn walk_kids(
    r: &Resolver,
    node: &Dictionary,
    inh: &Inherited,
    out: &mut Vec<Page>,
    seen: &mut HashSet<u32>,
    depth: u32,
) -> (res: Result<(), TurboParsePdfError>)
    requires
        depth <= 64,
        lookup(node@, "Kids"@) is Some,
    ensures
        match lookup(node@, "Kids"@) {
            Some(Val::Array(kids)) => match kids_from(*r, kids, 0, inh_view(*inh), old(seen)@, depth as int) {
                Ok((ps, s2)) => res is Ok && views(final(out)@) == views(old(out)@) + ps && final(seen)@ == s2,
                Err(c) => res matches Err(e) && e.code == c,
            },
            _ => res matches Err(e) && e.code == ErrorCode::InvalidObject,
        },
    decreases 65 - depth, 1int, 0int,
{
    let kids = match node.get("Kids") {
        Some(o) => match o {
            Object::Array(items) => {
                proof {
                    crate::object::lemma_array_val(*items);
                }
                items
            },
            _ => return Err(bad("/Kids not array")),
        },
        None => return Err(bad("/Kids not array")),
    };
    let ghost kv = vals(kids@);
    let ghost whole = kids_from(*r, kv, 0, inh_view(*inh), seen@, depth as int);
    let ghost base = views(out@);
    proof {
        match whole {
            Ok((ps, s2)) => {
                assert(views(out@) == base + Seq::<(Seq<(Seq<char>, Val)>, Seq<Val>, Seq<(Seq<char>, Val)>, i64)>::empty());
                assert(Seq::<(Seq<(Seq<char>, Val)>, Seq<Val>, Seq<(Seq<char>, Val)>, i64)>::empty() + ps =~= ps);
            },
            Err(_) => {},
        }
    }
    let mut k: usize = 0;
    let ghost mut acc: Seq<(Seq<(Seq<char>, Val)>, Seq<Val>, Seq<(Seq<char>, Val)>, i64)> = seq![];
    assert(views(out@) =~= base + acc);
    while k < kids.len()
        invariant
            depth <= 64,
            kv == vals(kids@),
            lookup(node@, "Kids"@) == Some(Val::Array(kv)),
            k <= kids@.len(),
            whole == kids_from(*r, kv, 0, inh_view(*inh), old(seen)@, depth as int),
            base == views(old(out)@),
            views(out@) == base + acc,
            whole == match kids_from(*r, kv, k as int, inh_view(*inh), seen@, depth as int) {
                Ok((qs, s3)) => Ok((acc + qs, s3)),
                Err(c) => Err::<(Seq<(Seq<(Seq<char>, Val)>, Seq<Val>, Seq<(Seq<char>, Val)>, i64)>, Set<u32>), ErrorCode>(c),
            },
        decreases kids@.len() - k,
    {
        let ghost before = views(out@);
        let ghost s0 = seen@;
        assert(kv[k as int] == kids@[k as int]@);
        walk_kid(r, &kids[k], inh, out, seen, depth)?;
        proof {
            let (ps, s2) = kid_spec(*r, kv[k as int], inh_view(*inh), s0, depth as int)->Ok_0;
            assert(kv[k as int] == kids@[k as int]@);
            match kids_from(*r, kv, k + 1, inh_view(*inh), s2, depth as int) {
                Ok((qs, s3)) => {
                    assert((acc + ps) + qs =~= acc + (ps + qs));
                },
                Err(_) => {},
            }
            acc = acc + ps;
            assert(views(out@) =~= base + acc);
        }
        k += 1;
    }
    proof {
        assert(acc + Seq::<(Seq<(Seq<char>, Val)>, Seq<Val>, Seq<(Seq<char>, Val)>, i64)>::empty() =~= acc);
    }
    Ok(())
}

/// Resolve and recurse one child reference, guarding against cycles.
fn walk_kid(
    r: &Resolver,
    kid: &Object,
    inh: &Inherited,
    out: &mut Vec<Page>,
    seen: &mut HashSet<u32>,
    depth: u32,
) -> (res: Result<(), TurboParsePdfError>)
    requires
        depth <= 64,
    ensures
        match kid_spec(*r, kid@, inh_view(*inh), old(seen)@, depth as int) {
            Ok((ps, s2)) => res is Ok && views(final(out)@) == views(old(out)@) + ps && final(seen)@ == s2,
            Err(c) => res matches Err(e) && e.code == c,
        },
    decreases 65 - depth, 0int, 0int,
{
    if let Some(rf) = kid.as_reference() {
        if !seen.insert(rf.num) {
            assert(views(out@) =~= views(out@) + Seq::<(Seq<(Seq<char>, Val)>, Seq<Val>, Seq<(Seq<char>, Val)>, i64)>::empty());
            return Ok(());
        }
    }
    let kdict = r.resolve_dict(kid)?;
    walk(r, &kdict, inh, out, seen, depth + 1)
}

/// Flatten the page tree under `catalog` into ordered page leaves.
pub fn collect_pages(r: &Resolver, catalog: &Dictionary) -> (res: Result<Vec<Page>, TurboParsePdfError>)
    ensures
        match collect_spec(*r, catalog@) {
            Ok(ps) => res matches Ok(v) && views(v@) == ps,
            Err(c) => res matches Err(e) && e.code == c,
        },
{
    let pages_obj = match catalog.get("Pages") {
        Some(p) => p,
        None => return Err(bad("catalog has no /Pages")),
    };
    let root = r.resolve_dict(pages_obj)?;
    let mut out: Vec<Page> = Vec::new();
    let mut seen: HashSet<u32> = HashSet::new();
    let inh = Inherited::root();
    assert(views(out@) =~= Seq::<(Seq<(Seq<char>, Val)>, Seq<Val>, Seq<(Seq<char>, Val)>, i64)>::empty());
    walk(r, &root, &inh, &mut out, &mut seen, 0)?;
    proof {
        let (ps, _) = walk_spec(*r, root@, root_inh(), Set::empty(), 0)->Ok_0;
        assert(Seq::<(Seq<(Seq<char>, Val)>, Seq<Val>, Seq<(Seq<char>, Val)>, i64)>::empty() + ps =~= ps);
    }
    Ok(out)
}

/// A page's content streams decoded and concatenated, each followed by a
/// newline (items that are not streams are skipped).
pub open spec fn concat_spec(r: Resolver, items: Seq<Val>) -> Result<Seq<u8>, ErrorCode>
    decreases items.len(),
{
    if items.len() == 0 {
        Ok(seq![])
    } else {
        match concat_spec(r, items.drop_last()) {
            Err(e) => Err(e),
            Ok(acc) => match r.spec_resolve(items.last()) {
                Err(e) => Err(e),
                Ok(Val::Stream(d, raw)) => match decode_stream_spec(d, raw) {
                    Err(e) => Err(e),
                    Ok(b) => Ok(acc + b + seq![0x0au8]),
                },
                Ok(_) => Ok(acc),
            },
        }
    }
}

/// A page's `/Contents`: one stream decoded, an array of streams concatenated,
/// and nothing for a missing or other value.
pub open spec fn content_spec(r: Resolver, dict: Seq<(Seq<char>, Val)>) -> Result<Seq<u8>, ErrorCode> {
    match lookup(dict, "Contents"@) {
        None => Ok(seq![]),
        Some(c) => match r.spec_resolve(c) {
            Err(e) => Err(e),
            Ok(Val::Stream(d, raw)) => decode_stream_spec(d, raw),
            Ok(Val::Array(items)) => concat_spec(r, items),
            Ok(_) => Ok(seq![]),
        },
    }
}

/// Resolve, decode, and append one content stream.
fn append_stream(r: &Resolver, item: &Object, out: &mut Vec<u8>) -> (res: Result<(), TurboParsePdfError>)
    ensures
        match r.spec_resolve(item@) {
            Err(c) => res matches Err(e) && e.code == c,
            Ok(Val::Stream(d, raw)) => match decode_stream_spec(d, raw) {
                Err(c) => res matches Err(e) && e.code == c,
                Ok(b) => res is Ok && final(out)@ == old(out)@ + b + seq![0x0au8],
            },
            Ok(_) => res is Ok && final(out)@ == old(out)@,
        },
{
    if let Object::Stream(s) = r.resolve(item)? {
        let body = decode_stream(&s.dict, s.data.as_slice())?;
        let ghost before = out@;
        crate::encode::extend_bytes(out, body.as_slice());
        out.push(0x0a);
        assert(out@ =~= before + body@ + seq![0x0au8]);
    }
    Ok(())
}

/// Concatenate an array of content streams, separated by newlines.
fn concat_streams(r: &Resolver, items: &[Object]) -> (res: Result<Vec<u8>, TurboParsePdfError>)
    ensures
        match concat_spec(*r, vals(items@)) {
            Ok(b) => res matches Ok(v) && v@ == b,
            Err(c) => res matches Err(e) && e.code == c,
        },
{
    let mut out: Vec<u8> = Vec::new();
    let mut k: usize = 0;
    while k < items.len()
        invariant
            k <= items@.len(),
            concat_spec(*r, vals(items@).subrange(0, k as int)) == Ok::<Seq<u8>, ErrorCode>(out@),
        decreases items@.len() - k,
    {
        proof {
            assert(vals(items@).subrange(0, k + 1).drop_last() =~= vals(items@).subrange(0, k as int));
            assert(vals(items@).subrange(0, k + 1).last() == items@[k as int]@);
        }
        let ghost before = out@;
        let res = append_stream(r, &items[k], &mut out);
        match res {
            Ok(()) => {},
            Err(e) => {
                proof {
                    lemma_concat_err(*r, vals(items@), k as int);
                }
                return Err(e);
            },
        }
        k += 1;
    }
    assert(vals(items@).subrange(0, k as int) =~= vals(items@));
    Ok(out)
}

/// A failing prefix fails the whole concatenation with the same error.
proof fn lemma_concat_err(r: Resolver, items: Seq<Val>, k: int)
    requires
        0 <= k < items.len(),
        concat_spec(r, items.subrange(0, k + 1)) is Err,
    ensures
        concat_spec(r, items) == concat_spec(r, items.subrange(0, k + 1)),
    decreases items.len() - k,
{
    if k + 1 == items.len() {
        assert(items.subrange(0, k + 1) =~= items);
    } else {
        assert(items.subrange(0, k + 2).drop_last() =~= items.subrange(0, k + 1));
        assert(concat_spec(r, items.subrange(0, k + 2)) == concat_spec(r, items.subrange(0, k + 1)));
        lemma_concat_err(r, items, k + 1);
    }
}

/// Concatenate and decode a page's `/Contents` into one content-stream buffer.
pub fn page_content(r: &Resolver, page: &Page) -> (res: Result<Vec<u8>, TurboParsePdfError>)
    ensures
        match content_spec(*r, page.dict@) {
            Ok(b) => res matches Ok(v) && v@ == b,
            Err(c) => res matches Err(e) && e.code == c,
        },
{
    let contents = match page.dict.get("Contents") {
        Some(c) => c,
        None => return Ok(Vec::new()),
    };
    match r.resolve(contents)? {
        Object::Stream(s) => decode_stream(&s.dict, s.data.as_slice()),
        Object::Array(items) => {
            proof {
                crate::object::lemma_array_val(items);
            }
            concat_streams(r, items.as_slice())
        },
        _ => Ok(Vec::new()),
    }
}

} // verus!

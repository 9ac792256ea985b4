use vstd::prelude::*;

verus! {

use crate::objects::ObjectId;
use crate::objects::Object;
use crate::objects::ascii_view;
use crate::objects::str_bytes;
use crate::objects::bytes_eq;
use crate::document::Document;
use crate::document::PdfError;
use crate::document::lookup;
use crate::document::dict_lookup;
use crate::document::name_value;
use crate::document::spec_page_seq;
use crate::document::k_type;

/// The `Name` key.
pub open spec fn k_name() -> Seq<u8> {
    ascii_view("Name"@)
}

/// The `Subtype` key.
pub open spec fn k_subtype() -> Seq<u8> {
    ascii_view("Subtype"@)
}

/// The `Watermark` name.
pub open spec fn k_watermark() -> Seq<u8> {
    ascii_view("Watermark"@)
}

/// The `Annots` key.
pub open spec fn k_annots() -> Seq<u8> {
    ascii_view("Annots"@)
}

pub fn key_name() -> (r: Vec<u8>)
    ensures
        r@ == k_name(),
{
    proof {
        reveal_strlit("Name");
    }
    str_bytes("Name")
}

pub fn key_subtype() -> (r: Vec<u8>)
    ensures
        r@ == k_subtype(),
{
    proof {
        reveal_strlit("Subtype");
    }
    str_bytes("Subtype")
}

pub fn key_watermark() -> (r: Vec<u8>)
    ensures
        r@ == k_watermark(),
{
    proof {
        reveal_strlit("Watermark");
    }
    str_bytes("Watermark")
}

pub fn key_annots() -> (r: Vec<u8>)
    ensures
        r@ == k_annots(),
{
    proof {
        reveal_strlit("Annots");
    }
    str_bytes("Annots")
}

/// Whether `needle` occurs in `hay` as a contiguous run of bytes.
pub open spec fn contains_sub(hay: Seq<u8>, needle: Seq<u8>) -> bool {
    exists|i: int|
        0 <= i <= hay.len() - needle.len() && #[trigger] hay.subrange(i, i + needle.len() as int)
            == needle
}

/// Decides `contains_sub` by scanning every window.
pub fn is_substring(hay: &Vec<u8>, needle: &Vec<u8>) -> (r: bool)
    ensures
        r == contains_sub(hay@, needle@),
{
    let nl = needle.len();
    let hl = hay.len();
    if nl > hl {
        proof {
            assert(!contains_sub(hay@, needle@));
        }
        return false;
    }
    let mut i: usize = 0;
    while i <= hl - nl
        invariant
            0 <= i <= hl - nl + 1,
            nl <= hl,
            nl == needle@.len(),
            hl == hay@.len(),
            forall|w: int|
                0 <= w < i ==> #[trigger] hay@.subrange(w, w + needle@.len() as int) != needle@,
        decreases hl - nl - i + 1,
    {
        let mut j: usize = 0;
        let mut matched = true;
        while j < nl
            invariant
                0 <= j <= nl,
                nl == needle@.len(),
                hl == hay@.len(),
                0 <= i <= hl - nl,
                matched <==> (forall|w: int|
                    0 <= w < j ==> hay@[i + w] == #[trigger] needle@[w]),
            decreases nl - j,
        {
            if hay[i + j] != needle[j] {
                proof {
                    assert(hay@[i as int + j as int] != needle@[j as int]);
                }
                matched = false;
                j = nl;
            } else {
                j = j + 1;
            }
        }
        if matched {
            proof {
                assert(hay@.subrange(i as int, i as int + needle@.len() as int) =~= needle@);
            }
            return true;
        }
        proof {
            assert(hay@.subrange(i as int, i as int + needle@.len() as int) != needle@) by {
                if hay@.subrange(i as int, i as int + needle@.len() as int) == needle@ {
                    assert(forall|w: int|
                        0 <= w < needle@.len() ==> hay@[i + w] == #[trigger] needle@[w]) by {
                        assert(forall|w: int|
                            0 <= w < needle@.len() ==> #[trigger] needle@[w] == hay@.subrange(
                                i as int,
                                i as int + needle@.len() as int,
                            )[w]);
                    }
                }
            }
        }
        i = i + 1;
    }
    proof {
        assert(!contains_sub(hay@, needle@));
    }
    false
}

/// The fixed, case-sensitive keyword set that marks an object's `Name` as
/// watermark-like when any member occurs inside it.
pub open spec fn wm_indicators() -> Seq<Seq<u8>> {
    seq![
        ascii_view("Watermark"@),
        ascii_view("watermark"@),
        ascii_view("WATERMARK"@),
        ascii_view("WM"@),
        ascii_view("wm"@),
        ascii_view("Overlay"@),
        ascii_view("overlay"@),
        ascii_view("Background"@),
        ascii_view("Draft"@),
        ascii_view("DRAFT"@),
        ascii_view("Confidential"@),
        ascii_view("CONFIDENTIAL"@),
        ascii_view("Sample"@),
        ascii_view("SAMPLE"@),
        ascii_view("Copy"@),
        ascii_view("COPY"@),
    ]
}

/// Whether a name holds any watermark keyword.
pub open spec fn name_matches(n: Seq<u8>) -> bool {
    exists|k: int| 0 <= k < wm_indicators().len() && contains_sub(n, #[trigger] wm_indicators()[k])
}

/// Builds the keyword table.
fn indicator_table() -> (r: Vec<Vec<u8>>)
    ensures
        r@.len() == wm_indicators().len(),
        forall|k: int| 0 <= k < r@.len() ==> (#[trigger] r@[k])@ == wm_indicators()[k],
{
    proof {
        reveal_strlit("Watermark");
        reveal_strlit("watermark");
        reveal_strlit("WATERMARK");
        reveal_strlit("WM");
        reveal_strlit("wm");
        reveal_strlit("Overlay");
        reveal_strlit("overlay");
        reveal_strlit("Background");
        reveal_strlit("Draft");
        reveal_strlit("DRAFT");
        reveal_strlit("Confidential");
        reveal_strlit("CONFIDENTIAL");
        reveal_strlit("Sample");
        reveal_strlit("SAMPLE");
        reveal_strlit("Copy");
        reveal_strlit("COPY");
    }
    let mut r: Vec<Vec<u8>> = Vec::new();
    r.push(str_bytes("Watermark"));
    r.push(str_bytes("watermark"));
    r.push(str_bytes("WATERMARK"));
    r.push(str_bytes("WM"));
    r.push(str_bytes("wm"));
    r.push(str_bytes("Overlay"));
    r.push(str_bytes("overlay"));
    r.push(str_bytes("Background"));
    r.push(str_bytes("Draft"));
    r.push(str_bytes("DRAFT"));
    r.push(str_bytes("Confidential"));
    r.push(str_bytes("CONFIDENTIAL"));
    r.push(str_bytes("Sample"));
    r.push(str_bytes("SAMPLE"));
    r.push(str_bytes("Copy"));
    r.push(str_bytes("COPY"));
    r
}

/// Decides `name_matches`.
fn matches_any(n: &Vec<u8>, inds: &Vec<Vec<u8>>) -> (r: bool)
    requires
        inds@.len() == wm_indicators().len(),
        forall|k: int| 0 <= k < inds@.len() ==> (#[trigger] inds@[k])@ == wm_indicators()[k],
    ensures
        r == name_matches(n@),
{
    let mut k: usize = 0;
    while k < inds.len()
        invariant
            0 <= k <= inds@.len(),
            inds@.len() == wm_indicators().len(),
            forall|w: int| 0 <= w < inds@.len() ==> (#[trigger] inds@[w])@ == wm_indicators()[w],
            forall|w: int| 0 <= w < k ==> !contains_sub(n@, #[trigger] wm_indicators()[w]),
        decreases inds@.len() - k,
    {
        if is_substring(n, &inds[k]) {
            proof {
                assert(contains_sub(n@, wm_indicators()[k as int]));
            }
            return true;
        }
        k = k + 1;
    }
    false
}

/// Whether an object looks like an overlay watermark: a dictionary or
/// stream whose `Name` holds a watermark keyword, or a dictionary whose
/// `Subtype` is the name `Watermark`.
pub open spec fn is_wm(o: Object) -> bool {
    match o {
        Object::Dictionary(d) => (name_value(d@, k_name()) matches Some(n) && name_matches(n)) || (
        name_value(d@, k_subtype()) == Some(k_watermark())),
        Object::Stream(d, _) => name_value(d@, k_name()) matches Some(n) && name_matches(n),
        _ => false,
    }
}

/// Decides `is_wm`.
fn check_is_wm(o: &Object, inds: &Vec<Vec<u8>>, nkey: &Vec<u8>, skey: &Vec<u8>, wname: &Vec<u8>) -> (
    r: bool)
    requires
        inds@.len() == wm_indicators().len(),
        forall|k: int| 0 <= k < inds@.len() ==> (#[trigger] inds@[k])@ == wm_indicators()[k],
        nkey@ == k_name(),
        skey@ == k_subtype(),
        wname@ == k_watermark(),
    ensures
        r == is_wm(*o),
{
    match o {
        Object::Dictionary(d) => {
            let by_name = match crate::document::dict_get(d, nkey) {
                Some(Object::Name(n)) => matches_any(n, inds),
                _ => false,
            };
            if by_name {
                return true;
            }
            match crate::document::dict_get(d, skey) {
                Some(Object::Name(n)) => bytes_eq(n.as_slice(), wname.as_slice()),
                _ => false,
            }
        },
        Object::Stream(d, _) => {
            match crate::document::dict_get(d, nkey) {
                Some(Object::Name(n)) => matches_any(n, inds),
                _ => false,
            }
        },
        _ => false,
    }
}

/// How many live objects look like watermarks.
pub open spec fn wm_count(objs: Seq<(ObjectId, Object)>) -> int
    decreases objs.len(),
{
    if objs.len() == 0 {
        0
    } else {
        (if is_wm(objs[0].1) {
            1int
        } else {
            0int
        }) + wm_count(objs.drop_first())
    }
}

/// The arena with every watermark-like object removed, the survivors
/// untouched and in order.
pub open spec fn wm_filter(objs: Seq<(ObjectId, Object)>) -> Seq<(ObjectId, Object)>
    decreases objs.len(),
{
    if objs.len() == 0 {
        Seq::empty()
    } else if is_wm(objs[0].1) {
        wm_filter(objs.drop_first())
    } else {
        seq![objs[0]] + wm_filter(objs.drop_first())
    }
}

/// The identifiers of the removed objects, in arena order.
pub open spec fn wm_removed_ids(objs: Seq<(ObjectId, Object)>) -> Seq<ObjectId>
    decreases objs.len(),
{
    if objs.len() == 0 {
        Seq::empty()
    } else if is_wm(objs[0].1) {
        seq![objs[0].0] + wm_removed_ids(objs.drop_first())
    } else {
        wm_removed_ids(objs.drop_first())
    }
}

/// Filtering a unique arena keeps identifiers unique, resolves surviving
/// identifiers to the very same objects, and resolves nothing new.
pub proof fn lemma_wm_filter_props(objs: Seq<(ObjectId, Object)>)
    requires
        crate::document::unique_ids(objs),
    ensures
        crate::document::unique_ids(wm_filter(objs)),
        wm_filter(objs).len() == objs.len() - wm_count(objs),
        forall|id: ObjectId|
            #[trigger] lookup(wm_filter(objs), id) is Some ==> lookup(wm_filter(objs), id)
                == lookup(objs, id),
        forall|id: ObjectId|
            #[trigger] lookup(objs, id) is None ==> lookup(wm_filter(objs), id) is None,
        forall|j: int|
            0 <= j < wm_filter(objs).len() ==> (exists|i: int|
                0 <= i < objs.len() && #[trigger] wm_filter(objs)[j] == objs[i]),
    decreases objs.len(),
{
    if objs.len() > 0 {
        let rest = objs.drop_first();
        assert forall|p: int, q: int|
            0 <= p < q < rest.len() implies (#[trigger] rest[p]).0 != (#[trigger] rest[q]).0 by {
            assert(rest[p] == objs[p + 1] && rest[q] == objs[q + 1]);
        }
        lemma_wm_filter_props(rest);
        let f = wm_filter(objs);
        if is_wm(objs[0].1) {
            assert(f == wm_filter(rest));
            assert forall|id: ObjectId|
                #[trigger] lookup(f, id) is Some implies lookup(f, id) == lookup(objs, id) by {
                if lookup(f, id) is Some {
                    assert(lookup(f, id) == lookup(rest, id));
                    if objs[0].0 == id {
                        crate::document::lemma_lookup_index(rest, id);
                        let w = crate::document::index_of_id(rest, id);
                        assert(rest[w] == objs[w + 1]);
                        assert(false);
                    }
                }
            }
            assert forall|id: ObjectId|
                #[trigger] lookup(objs, id) is None implies lookup(f, id) is None by {
                if objs[0].0 != id {
                    assert(lookup(rest, id) is None);
                } else {
                }
            }
            assert forall|j: int|
                0 <= j < f.len() implies (exists|i: int|
                0 <= i < objs.len() && #[trigger] f[j] == objs[i]) by {
                let i0 = choose|i0: int| 0 <= i0 < rest.len() && #[trigger] f[j] == rest[i0];
                assert(f[j] == objs[i0 + 1]);
            }
        } else {
            assert(f == seq![objs[0]] + wm_filter(rest));
            assert(f[0] == objs[0]);
            assert forall|p: int, q: int|
                0 <= p < q < f.len() implies (#[trigger] f[p]).0 != (#[trigger] f[q]).0 by {
                if p == 0 {
                    assert(f[q] == wm_filter(rest)[q - 1]);
                    let i0 = choose|i0: int|
                        0 <= i0 < rest.len() && #[trigger] wm_filter(rest)[q - 1] == rest[i0];
                    assert(rest[i0] == objs[i0 + 1]);
                    assert(objs[0].0 != objs[i0 + 1].0);
                } else {
                    assert(f[p] == wm_filter(rest)[p - 1] && f[q] == wm_filter(rest)[q - 1]);
                }
            }
            assert forall|id: ObjectId|
                #[trigger] lookup(f, id) is Some implies lookup(f, id) == lookup(objs, id) by {
                if f[0].0 == id {
                } else {
                    assert(f.drop_first() =~= wm_filter(rest));
                    assert(lookup(f, id) == lookup(wm_filter(rest), id));
                }
            }
            assert forall|id: ObjectId|
                #[trigger] lookup(objs, id) is None implies lookup(f, id) is None by {
                assert(f.drop_first() =~= wm_filter(rest));
            }
            assert forall|j: int|
                0 <= j < f.len() implies (exists|i: int|
                0 <= i < objs.len() && #[trigger] f[j] == objs[i]) by {
                if j == 0 {
                    assert(f[0] == objs[0]);
                } else {
                    assert(f[j] == wm_filter(rest)[j - 1]);
                    let i0 = choose|i0: int|
                        0 <= i0 < rest.len() && #[trigger] wm_filter(rest)[j - 1] == rest[i0];
                    assert(f[j] == objs[i0 + 1]);
                }
            }
        }
    }
}

/// A walk that succeeded keeps succeeding on any arena that resolves a
/// subset of the identifiers to the very same objects.
pub proof fn lemma_walk_kid_sub(
    m1: Seq<(ObjectId, Object)>,
    m2: Seq<(ObjectId, Object)>,
    kid: Object,
    fuel: nat,
)
    requires
        forall|id: ObjectId|
            #[trigger] lookup(m2, id) is Some ==> lookup(m2, id) == lookup(m1, id),
        crate::document::walk_kid(m1, kid, fuel) is Some,
    ensures
        crate::document::walk_kid(m2, kid, fuel) is Some,
    decreases fuel, 0nat,
{
    match kid {
        Object::Reference(id) => {
            match lookup(m2, id) {
                Some(o2) => {
                    assert(lookup(m1, id) == Some(o2));
                    match o2 {
                        Object::Dictionary(d) => {
                            let t = name_value(d@, k_type());
                            if t != Some(crate::document::k_page()) && t == Some(
                                crate::document::k_pages(),
                            ) && fuel > 0 {
                                match crate::document::kids_of(d@) {
                                    Some(kids) => {
                                        lemma_walk_kids_sub(m1, m2, kids, (fuel - 1) as nat);
                                    },
                                    None => {},
                                }
                            }
                        },
                        _ => {},
                    }
                },
                None => {},
            }
        },
        _ => {},
    }
}

/// Kids-array case of the subset walk.
pub proof fn lemma_walk_kids_sub(
    m1: Seq<(ObjectId, Object)>,
    m2: Seq<(ObjectId, Object)>,
    kids: Seq<Object>,
    fuel: nat,
)
    requires
        forall|id: ObjectId|
            #[trigger] lookup(m2, id) is Some ==> lookup(m2, id) == lookup(m1, id),
        crate::document::walk_kids(m1, kids, fuel) is Some,
    ensures
        crate::document::walk_kids(m2, kids, fuel) is Some,
    decreases fuel, 1nat, kids.len(),
{
    if kids.len() > 0 {
        lemma_walk_kid_sub(m1, m2, kids[0], fuel);
        lemma_walk_kids_sub(m1, m2, kids.drop_first(), fuel);
    }
}


/// The decimal digit character for one value below ten.
pub open spec fn dec_digit(d: int) -> char {
    ((48 + d) as u8) as char
}

/// The decimal rendering of a non-negative number, most significant digit
/// first.
pub open spec fn dec_digits(n: int) -> Seq<char>
    decreases n,
{
    if n < 10 {
        seq![dec_digit(n)]
    } else {
        dec_digits(n / 10).push(dec_digit(n % 10))
    }
}

/// Renders a number in decimal.
pub fn u64_to_string(n: u64) -> (r: String)
    ensures
        r@ == dec_digits(n as int),
    decreases n,
{
    if n < 10 {
        let mut s = String::new();
        s.push((48 + n as u8) as char);
        proof {
            assert(s@ =~= seq![dec_digit(n as int)]);
        }
        s
    } else {
        let mut s = u64_to_string(n / 10);
        s.push((48 + (n % 10) as u8) as char);
        s
    }
}

/// The report for a removal that found something.
pub open spec fn msg_found(n: int) -> Seq<char> {
    "Found and removed "@ + dec_digits(n) + " potential watermark element(s). Please check the output file."@
}

/// The report for a removal that found nothing.
pub open spec fn msg_none() -> Seq<char> {
    "No obvious watermark elements were found. The watermark may be embedded in the page content, which cannot be easily removed."@
}

/// What a watermark removal reports back.
#[derive(Debug, PartialEq, Eq)]
pub struct WatermarkRemovalResult {
    pub success: bool,
    pub items_removed: usize,
    pub message: String,
}

/// `n` capped at the largest `usize`.
pub open spec fn clamp_usize(n: int) -> int {
    if n > usize::MAX as int {
        usize::MAX as int
    } else {
        n
    }
}

/// Adds with saturation at the largest `usize`.
fn add_clamped(a: usize, b: usize) -> (r: usize)
    ensures
        r as int == clamp_usize(a + b),
{
    if a > usize::MAX - b {
        usize::MAX
    } else {
        a + b
    }
}

/// Whether a surviving object carries the `Watermark` subtype.
pub open spec fn subtype_wm_at(m2: Seq<(ObjectId, Object)>, aid: ObjectId) -> bool {
    lookup(m2, aid) matches Some(Object::Dictionary(d)) && name_value(d@, k_subtype()) == Some(
        k_watermark(),
    )
}

/// Whether one annotation entry is dropped: a reference to a removed
/// object, or to a survivor whose subtype is `Watermark`.
pub open spec fn annot_dropped(rm: Seq<ObjectId>, m2: Seq<(ObjectId, Object)>, e: Object) -> bool {
    e matches Object::Reference(aid) && (rm.contains(aid) || subtype_wm_at(m2, aid))
}

/// How many entries of an annotation array are dropped.
pub open spec fn dropped_count(v: Seq<Object>, rm: Seq<ObjectId>, m2: Seq<(ObjectId, Object)>) -> int
    decreases v.len(),
{
    if v.len() == 0 {
        0
    } else {
        (if annot_dropped(rm, m2, v[0]) {
            1int
        } else {
            0int
        }) + dropped_count(v.drop_first(), rm, m2)
    }
}

/// Relates an annotation array to its filtered copy: dropped entries gone,
/// the rest untouched and in order.
pub open spec fn annots_filtered(
    v: Seq<Object>,
    w: Seq<Object>,
    rm: Seq<ObjectId>,
    m2: Seq<(ObjectId, Object)>,
) -> bool
    decreases v.len(),
{
    if v.len() == 0 {
        w.len() == 0
    } else if annot_dropped(rm, m2, v[0]) {
        annots_filtered(v.drop_first(), w, rm, m2)
    } else {
        w.len() > 0 && w[0] == v[0] && annots_filtered(v.drop_first(), w.drop_first(), rm, m2)
    }
}

/// How many entries one page sheds: the dropped entries of its direct
/// `Annots` array, if it has one.
pub open spec fn page_drop(
    m2: Seq<(ObjectId, Object)>,
    rm: Seq<ObjectId>,
    pid: ObjectId,
) -> int {
    match lookup(m2, pid) {
        Some(Object::Dictionary(d)) => match dict_lookup(d@, k_annots()) {
            Some(Object::Array(v)) => dropped_count(v@, rm, m2),
            _ => 0,
        },
        _ => 0,
    }
}

/// The entries shed over the first `k` pages, counting each page once.
pub open spec fn dropped_upto(
    m2: Seq<(ObjectId, Object)>,
    rm: Seq<ObjectId>,
    pl: Seq<ObjectId>,
    k: int,
) -> int
    decreases k,
{
    if k <= 0 {
        0
    } else {
        dropped_upto(m2, rm, pl, k - 1) + (if pl.take(k - 1).contains(pl[k - 1]) {
            0int
        } else {
            page_drop(m2, rm, pl[k - 1])
        })
    }
}

/// How a page object reacts to the annotation sweep: its first direct
/// `Annots` array is filtered and every other entry stands untouched.
pub open spec fn annots_updated(
    o1: Object,
    o2: Object,
    rm: Seq<ObjectId>,
    m2: Seq<(ObjectId, Object)>,
) -> bool {
    match o1 {
        Object::Dictionary(d1) => {
            match dict_lookup(d1@, k_annots()) {
                Some(Object::Array(v)) => {
                    let ai = crate::document::key_index(d1@, k_annots());
                    &&& o2 matches Object::Dictionary(d2)
                    &&& d2@.len() == d1@.len()
                    &&& (forall|i: int| 0 <= i < d1@.len() && i != ai ==> #[trigger] d2@[i] == d1@[i])
                    &&& d2@[ai].0 == d1@[ai].0
                    &&& (d2@[ai].1 matches Object::Array(w) && annots_filtered(v@, w@, rm, m2))
                },
                _ => o2 == o1,
            }
        },
        _ => o2 == o1,
    }
}

/// What a finished removal guarantees: the survivors keep their places and
/// all their entries but the swept `Annots` arrays, and the report counts
/// removed objects plus dropped annotation entries, with the message the
/// count calls for.
pub open spec fn wm_result(old: Document, new: Document, res: WatermarkRemovalResult) -> bool {
    let m1 = old.objects@;
    let mo = wm_filter(m1);
    let rm = wm_removed_ids(m1);
    let pl = crate::document::page_seq_in(mo, old.trailer@)->Some_0;
    &&& new.trailer == old.trailer
    &&& new.max_id == old.max_id
    &&& crate::document::doc_wf(new)
    &&& crate::document::page_seq_in(mo, old.trailer@) is Some
    &&& new.objects@.len() == mo.len()
    &&& (forall|i: int| 0 <= i < mo.len() ==> (#[trigger] new.objects@[i]).0 == mo[i].0)
    &&& (forall|i: int|
        0 <= i < mo.len() && pl.contains((#[trigger] mo[i]).0) ==> annots_updated(
            mo[i].1,
            new.objects@[i].1,
            rm,
            mo,
        ))
    &&& (forall|i: int|
        0 <= i < mo.len() && !pl.contains((#[trigger] mo[i]).0) ==> new.objects@[i] == mo[i])
    &&& res.items_removed as int == clamp_usize(rm.len() + dropped_upto(mo, rm, pl, pl.len() as int))
    &&& (res.success <==> res.items_removed > 0)
    &&& res.message@ == (if res.items_removed > 0 {
        msg_found(res.items_removed as int)
    } else {
        msg_none()
    })
}


/// The direct `Annots` array of a live page, if it has one.
pub open spec fn page_annots(m2: Seq<(ObjectId, Object)>, pid: ObjectId) -> Option<Seq<Object>> {
    match lookup(m2, pid) {
        Some(Object::Dictionary(d)) => match dict_lookup(d@, k_annots()) {
            Some(Object::Array(v)) => Some(v@),
            _ => None,
        },
        _ => None,
    }
}

/// Whether an identifier occurs in a list.
fn id_in(v: &Vec<ObjectId>, id: ObjectId) -> (r: bool)
    ensures
        r == v@.contains(id),
{
    let mut i: usize = 0;
    while i < v.len()
        invariant
            0 <= i <= v@.len(),
            forall|j: int| 0 <= j < i ==> v@[j] != id,
        decreases v@.len() - i,
    {
        if v[i] == id {
            return true;
        }
        i = i + 1;
    }
    proof {
        assert(!v@.contains(id));
    }
    false
}

/// Decides `annot_dropped` against the surviving arena.
fn check_annot_dropped(
    e: &Object,
    rmv: &Vec<ObjectId>,
    objs: &Vec<(ObjectId, Object)>,
    skey: &Vec<u8>,
    wname: &Vec<u8>,
) -> (r: bool)
    requires
        skey@ == k_subtype(),
        wname@ == k_watermark(),
    ensures
        r == annot_dropped(rmv@, objs@, *e),
{
    match e {
        Object::Reference(aid) => {
            if id_in(rmv, *aid) {
                return true;
            }
            match crate::document::get_object(objs, *aid) {
                Some(Object::Dictionary(sd)) => {
                    match crate::document::dict_get(sd, skey) {
                        Some(Object::Name(nm)) => bytes_eq(nm.as_slice(), wname.as_slice()),
                        _ => false,
                    }
                },
                _ => false,
            }
        },
        _ => false,
    }
}

/// Scans every object for watermark-like names and subtypes, removes the
/// matches, then sweeps each page's direct `Annots` array, dropping every
/// reference to a removed object or to a `Watermark`-subtyped survivor.
/// Reports how many objects and entries went, whether anything went at
/// all, and a message saying so.  The heuristic does not see watermarks
/// drawn into page content streams.
pub fn remove_watermark(doc: &mut Document) -> (r: Result<WatermarkRemovalResult, PdfError>)
    requires
        crate::document::doc_wf(*old(doc)),
    ensures
        r is Err <==> spec_page_seq(*old(doc)) is None,
        r is Err ==> r == Err::<WatermarkRemovalResult, PdfError>(PdfError::MalformedPageTree)
            && *final(doc) == *old(doc),
        r matches Ok(res) ==> wm_result(*old(doc), *final(doc), res),
{
    let ghost d0 = *old(doc);
    let ghost m1 = d0.objects@;
    let ghost t = d0.trailer@;

    // A page tree too deep to walk is refused before anything changes.
    match crate::document::page_ids(doc) {
        Ok(_) => {},
        Err(_) => {
            return Err(PdfError::MalformedPageTree);
        },
    };

    let inds = indicator_table();
    let nkey = key_name();
    let skey = key_subtype();
    let wname = key_watermark();
    let akey = key_annots();

    // Remove every object the heuristic marks.
    let mut tmp: Vec<(ObjectId, Object)> = Vec::new();
    core::mem::swap(&mut tmp, &mut doc.objects);
    let mut kept: Vec<(ObjectId, Object)> = Vec::new();
    let mut removed_ids: Vec<ObjectId> = Vec::new();
    proof {
        assert(tmp@ == m1);
    }
    while tmp.len() > 0
        invariant
            inds@.len() == wm_indicators().len(),
            forall|k: int| 0 <= k < inds@.len() ==> (#[trigger] inds@[k])@ == wm_indicators()[k],
            nkey@ == k_name(),
            skey@ == k_subtype(),
            wname@ == k_watermark(),
            forall|w2: Seq<(ObjectId, Object)>|
                #[trigger] wm_filter(tmp@).add(w2) == wm_filter(tmp@) + w2 ==> kept@ + wm_filter(
                    tmp@,
                ) + w2 == wm_filter(m1) + w2,
            kept@ + wm_filter(tmp@) == wm_filter(m1),
            removed_ids@ + wm_removed_ids(tmp@) == wm_removed_ids(m1),
        decreases tmp@.len(),
    {
        let ghost tmp0 = tmp@;
        let e = tmp.remove(0);
        proof {
            assert(tmp@ =~= tmp0.drop_first());
        }
        if check_is_wm(&e.1, &inds, &nkey, &skey, &wname) {
            removed_ids.push(e.0);
            proof {
                assert(wm_filter(tmp0) == wm_filter(tmp0.drop_first()));
                assert(wm_removed_ids(tmp0) == seq![tmp0[0].0] + wm_removed_ids(
                    tmp0.drop_first(),
                ));
                assert(removed_ids@ + wm_removed_ids(tmp@) =~= (removed_ids@.drop_last()
                    + seq![e.0]) + wm_removed_ids(tmp0.drop_first()));
                assert((removed_ids@.drop_last() + seq![e.0]) + wm_removed_ids(tmp0.drop_first())
                    =~= removed_ids@.drop_last() + (seq![tmp0[0].0] + wm_removed_ids(
                    tmp0.drop_first(),
                )));
            }
        } else {
            kept.push(e);
            proof {
                assert(wm_filter(tmp0) == seq![tmp0[0]] + wm_filter(tmp0.drop_first()));
                assert(kept@ + wm_filter(tmp@) =~= (kept@.drop_last() + seq![e]) + wm_filter(
                    tmp0.drop_first(),
                ));
                assert((kept@.drop_last() + seq![e]) + wm_filter(tmp0.drop_first())
                    =~= kept@.drop_last() + (seq![tmp0[0]] + wm_filter(tmp0.drop_first())));
            }
        }
    }
    proof {
        assert(wm_filter(tmp@) =~= Seq::<(ObjectId, Object)>::empty());
        assert(kept@ + Seq::<(ObjectId, Object)>::empty() =~= kept@);
        assert(wm_removed_ids(tmp@) =~= Seq::<ObjectId>::empty());
        assert(removed_ids@ + Seq::<ObjectId>::empty() =~= removed_ids@);
        assert(kept@ == wm_filter(m1));
        assert(removed_ids@ == wm_removed_ids(m1));
    }
    doc.objects = kept;
    let ghost mo = wm_filter(m1);
    let ghost rm = wm_removed_ids(m1);
    proof {
        lemma_wm_filter_props(m1);
    }

    // The surviving pages, in document order.
    let pl = match crate::document::page_ids_in(&doc.objects, &doc.trailer) {
        Ok(v) => v,
        Err(_) => {
            proof {
                lemma_filtered_pages_some(m1, t);
            }
            vstd::pervasive::unreached()
        },
    };
    proof {
        crate::document::lemma_page_seq_in_live(mo, t);
    }

    // Decide, for each page, which annotation entries go.
    let np = pl.len();
    let mut skips: Vec<bool> = Vec::new();
    let mut decs: Vec<Vec<bool>> = Vec::new();
    let mut k: usize = 0;
    while k < np
        invariant
            0 <= k <= np,
            np == pl@.len(),
            doc.objects@ == mo,
            doc.trailer == d0.trailer,
            doc.max_id == d0.max_id,
            removed_ids@ == rm,
            akey@ == k_annots(),
            skey@ == k_subtype(),
            wname@ == k_watermark(),
            crate::document::page_seq_in(mo, t) == Some(pl@),
            skips@.len() == k,
            decs@.len() == k,
            forall|w: int|
                0 <= w < k ==> (#[trigger] skips@[w] <==> (pl@.take(w).contains(pl@[w])
                    || page_annots(mo, pl@[w]) is None)),
            forall|w: int|
                0 <= w < k && !skips@[w] ==> (#[trigger] decs@[w])@.len() == page_annots(
                    mo,
                    pl@[w],
                )->Some_0.len(),
            forall|w: int, idx: int|
                0 <= w < k && !skips@[w] && 0 <= idx < decs@[w]@.len() ==> #[trigger] decs@[w]@[idx]
                    == annot_dropped(rm, mo, page_annots(mo, pl@[w])->Some_0[idx]),
        decreases np - k,
    {
        let pid = pl[k];
        let mut dup = false;
        let mut w2: usize = 0;
        while w2 < k
            invariant
                0 <= w2 <= k < np,
                np == pl@.len(),
                pid == pl@[k as int],
                dup <==> pl@.take(w2 as int).contains(pl@[k as int]),
            decreases k - w2,
        {
            let ghost before = dup;
            if pl[w2] == pid {
                dup = true;
            }
            proof {
                assert(pl@.take(w2 as int + 1) =~= pl@.take(w2 as int).push(pl@[w2 as int]));
                assert(pl@.take(w2 as int + 1).contains(pl@[k as int]) <==> (pl@.take(
                    w2 as int,
                ).contains(pl@[k as int]) || pl@[w2 as int] == pl@[k as int])) by {
                    if pl@.take(w2 as int).contains(pl@[k as int]) {
                        let wi = choose|wi: int|
                            0 <= wi < w2 && #[trigger] pl@.take(w2 as int)[wi] == pl@[k as int];
                        assert(pl@.take(w2 as int + 1)[wi] == pl@[k as int]);
                    }
                    if pl@[w2 as int] == pl@[k as int] {
                        assert(pl@.take(w2 as int + 1)[w2 as int] == pl@[k as int]);
                    }
                    if pl@.take(w2 as int + 1).contains(pl@[k as int]) {
                        let wi = choose|wi: int|
                            0 <= wi < w2 + 1 && #[trigger] pl@.take(w2 as int + 1)[wi] == pl@[
                            k as int];
                        if wi < w2 {
                            assert(pl@.take(w2 as int)[wi] == pl@[k as int]);
                        } else {
                            assert(pl@.take(w2 as int + 1)[wi] == pl@[w2 as int]);
                        }
                    }
                }
            }
            w2 = w2 + 1;
        }
        if dup {
            skips.push(true);
            decs.push(Vec::new());
        } else {
            let present = {
                match crate::document::get_object(&doc.objects, pid) {
                    Some(Object::Dictionary(d)) => {
                        match crate::document::dict_get(d, &akey) {
                            Some(Object::Array(_)) => true,
                            _ => false,
                        }
                    },
                    _ => false,
                }
            };
            if !present {
                proof {
                    assert(page_annots(mo, pl@[k as int]) is None);
                }
                skips.push(true);
                decs.push(Vec::new());
            } else {
                let mut dk: Vec<bool> = Vec::new();
                let varr = match crate::document::get_object(&doc.objects, pid) {
                    Some(Object::Dictionary(d)) => {
                        match crate::document::dict_get(d, &akey) {
                            Some(Object::Array(v)) => v,
                            _ => vstd::pervasive::unreached(),
                        }
                    },
                    _ => vstd::pervasive::unreached(),
                };
                let ghost v0 = varr@;
                proof {
                    assert(page_annots(mo, pl@[k as int]) == Some(v0));
                }
                let mut idx: usize = 0;
                while idx < varr.len()
                    invariant
                        0 <= idx <= varr@.len(),
                        varr@ == v0,
                        removed_ids@ == rm,
                        doc.objects@ == mo,
                        skey@ == k_subtype(),
                        wname@ == k_watermark(),
                        dk@.len() == idx,
                        forall|q: int|
                            0 <= q < idx ==> dk@[q] == annot_dropped(rm, mo, #[trigger] v0[q]),
                    decreases varr@.len() - idx,
                {
                    let b = check_annot_dropped(&varr[idx], &removed_ids, &doc.objects, &skey, &wname);
                    dk.push(b);
                    idx = idx + 1;
                }
                skips.push(false);
                decs.push(dk);
            }
        }
        k = k + 1;
    }

    // Sweep each page once, counting what goes.
    let mut count: usize = removed_ids.len();
    proof {
        assert(count as int == clamp_usize(rm.len() + dropped_upto(mo, rm, pl@, 0)));
    }
    let mut k3: usize = 0;
    while k3 < np
        invariant
            0 <= k3 <= np,
            np == pl@.len(),
            doc.trailer == d0.trailer,
            doc.max_id == d0.max_id,
            doc.objects@.len() == mo.len(),
            crate::document::unique_ids(mo),
            akey@ == k_annots(),
            crate::document::page_seq_in(mo, t) == Some(pl@),
            skips@.len() == np,
            decs@.len() == np,
            forall|w: int|
                0 <= w < np ==> (#[trigger] skips@[w] <==> (pl@.take(w).contains(pl@[w])
                    || page_annots(mo, pl@[w]) is None)),
            forall|w: int|
                0 <= w < np && !skips@[w] ==> (#[trigger] decs@[w])@.len() == page_annots(
                    mo,
                    pl@[w],
                )->Some_0.len(),
            forall|w: int, idx: int|
                0 <= w < np && !skips@[w] && 0 <= idx < decs@[w]@.len() ==> #[trigger] decs@[w]@[idx]
                    == annot_dropped(rm, mo, page_annots(mo, pl@[w])->Some_0[idx]),
            forall|i: int| 0 <= i < mo.len() ==> (#[trigger] doc.objects@[i]).0 == mo[i].0,
            forall|i: int|
                0 <= i < mo.len() && pl@.take(k3 as int).contains((#[trigger] mo[i]).0)
                    ==> annots_updated(mo[i].1, doc.objects@[i].1, rm, mo),
            forall|i: int|
                0 <= i < mo.len() && !pl@.take(k3 as int).contains((#[trigger] mo[i]).0)
                    ==> doc.objects@[i] == mo[i],
            count as int == clamp_usize(rm.len() + dropped_upto(mo, rm, pl@, k3 as int)),
        decreases np - k3,
    {
        let pid = pl[k3];
        proof {
            assert(pl@.take(k3 as int + 1) =~= pl@.take(k3 as int).push(pl@[k3 as int]));
            lemma_dropped_upto_nonneg(mo, rm, pl@, k3 as int);
        }
        if skips[k3] {
            proof {
                if pl@.take(k3 as int).contains(pid) {
                    assert forall|i: int|
                        0 <= i < mo.len() && pl@.take(k3 as int + 1).contains(
                            (#[trigger] mo[i]).0,
                        ) implies annots_updated(mo[i].1, doc.objects@[i].1, rm, mo) by {
                        assert(pl@.take(k3 as int).contains(mo[i].0) || mo[i].0 == pid);
                    }
                } else {
                    assert(page_annots(mo, pid) is None);
                    assert(page_drop(mo, rm, pid) == 0);
                    assert forall|i: int|
                        0 <= i < mo.len() && pl@.take(k3 as int + 1).contains(
                            (#[trigger] mo[i]).0,
                        ) implies annots_updated(mo[i].1, doc.objects@[i].1, rm, mo) by {
                        if mo[i].0 == pid && !pl@.take(k3 as int).contains(mo[i].0) {
                            assert(doc.objects@[i] == mo[i]);
                            assert(lookup(mo, pid) is Some ==> true);
                            lemma_annots_updated_trivial(mo[i].1, rm, mo, pid, i, k3 as int);
                        }
                    }
                }
                assert forall|i: int|
                    0 <= i < mo.len() && !pl@.take(k3 as int + 1).contains(
                        (#[trigger] mo[i]).0,
                    ) implies doc.objects@[i] == mo[i] by {
                    assert(!pl@.take(k3 as int).contains(mo[i].0));
                }
            }
        } else {
            proof {
                assert(!pl@.take(k3 as int).contains(pid));
                assert(page_annots(mo, pid) is Some);
            }
            let ghost v0 = page_annots(mo, pid)->Some_0;
            let oi = match crate::document::find_index(&doc.objects, pid) {
                Some(i) => i,
                None => {
                    proof {
                        crate::merge::lemma_lookup_same_ids(mo, doc.objects@, pid);
                    }
                    vstd::pervasive::unreached()
                },
            };
            proof {
                crate::document::lemma_lookup_index(mo, pid);
                crate::merge::lemma_unique_lookup_at(mo, oi as int);
                assert(mo[oi as int].0 == pid);
                assert(doc.objects@[oi as int] == mo[oi as int]);
            }
            let ghost before_arena = doc.objects@;
            let (eid, eobj) = doc.objects.remove(oi);
            let mut entries = match eobj {
                Object::Dictionary(e) => e,
                _ => vstd::pervasive::unreached(),
            };
            let ghost d1 = entries@;
            let ai = match crate::document::find_key(&entries, &akey) {
                Some(i) => i,
                None => vstd::pervasive::unreached(),
            };
            let (ak, av) = entries.remove(ai);
            let mut varr = match av {
                Object::Array(v) => v,
                _ => vstd::pervasive::unreached(),
            };
            proof {
                crate::document::lemma_dict_lookup_index(d1, k_annots());
                assert(varr@ == v0);
            }
            let dk = &decs[k3];
            let mut keptv: Vec<Object> = Vec::new();
            let mut pd: usize = 0;
            let mut idx: usize = 0;
            proof {
                assert(v0.skip(0) =~= v0);
            }
            while idx < dk.len()
                invariant
                    0 <= idx <= v0.len(),
                    dk@.len() == v0.len(),
                    forall|q: int|
                        0 <= q < v0.len() ==> dk@[q] == annot_dropped(rm, mo, #[trigger] v0[q]),
                    varr@ == v0.skip(idx as int),
                    pd as int == dropped_count(v0, rm, mo) - dropped_count(
                        v0.skip(idx as int),
                        rm,
                        mo,
                    ),
                    pd <= idx,
                    forall|w3: Seq<Object>|
                        annots_filtered(v0.skip(idx as int), w3, rm, mo) ==> annots_filtered(
                            v0,
                            keptv@ + w3,
                            rm,
                            mo,
                        ),
                decreases v0.len() - idx,
            {
                proof {
                    assert(v0.skip(idx as int)[0] == v0[idx as int]);
                    assert(v0.skip(idx as int).drop_first() =~= v0.skip(idx as int + 1));
                }
                let e = varr.remove(0);
                if dk[idx] {
                    pd = pd + 1;
                    proof {
                        assert(annot_dropped(rm, mo, v0[idx as int]));
                        assert forall|w3: Seq<Object>|
                            annots_filtered(v0.skip(idx as int + 1), w3, rm, mo) implies annots_filtered(
                            v0,
                            keptv@ + w3,
                            rm,
                            mo,
                        ) by {
                            assert(annots_filtered(v0.skip(idx as int), w3, rm, mo));
                        }
                    }
                } else {
                    let ghost kv0 = keptv@;
                    keptv.push(e);
                    proof {
                        assert forall|w3: Seq<Object>|
                            annots_filtered(v0.skip(idx as int + 1), w3, rm, mo) implies annots_filtered(
                            v0,
                            (kv0 + seq![e]) + w3,
                            rm,
                            mo,
                        ) by {
                            assert((kv0 + seq![e]) + w3 =~= kv0 + (seq![e] + w3));
                            assert((seq![e] + w3)[0] == e);
                            assert((seq![e] + w3).drop_first() =~= w3);
                            assert(annots_filtered(v0.skip(idx as int), seq![e] + w3, rm, mo));
                        }
                        assert(keptv@ =~= kv0 + seq![e]);
                    }
                }
                idx = idx + 1;
            }
            proof {
                assert(v0.skip(v0.len() as int).len() == 0);
                assert(annots_filtered(v0.skip(v0.len() as int), Seq::<Object>::empty(), rm, mo));
                assert(keptv@ + Seq::<Object>::empty() =~= keptv@);
                assert(annots_filtered(v0, keptv@, rm, mo));
                assert(dropped_count(v0.skip(v0.len() as int), rm, mo) == 0);
                assert(pd as int == dropped_count(v0, rm, mo));
            }
            entries.insert(ai, (ak, Object::Array(keptv)));
            proof {
                assert(entries@ =~= d1.update(ai as int, (d1[ai as int].0, entries@[ai as int].1)));
            }
            doc.objects.insert(oi, (eid, Object::Dictionary(entries)));
            count = add_clamped(count, pd);
            proof {
                assert(doc.objects@ =~= before_arena.update(
                    oi as int,
                    (before_arena[oi as int].0, doc.objects@[oi as int].1),
                ));
                assert(annots_updated(mo[oi as int].1, doc.objects@[oi as int].1, rm, mo)) by {
                    let dd1 = mo[oi as int].1->Dictionary_0;
                    assert(dd1@ == d1);
                    let dd2 = doc.objects@[oi as int].1->Dictionary_0;
                    assert forall|i: int|
                        0 <= i < d1.len() && i != ai as int implies #[trigger] dd2@[i]
                        == d1[i] by {}
                }
                assert(page_drop(mo, rm, pid) == dropped_count(v0, rm, mo));
                assert forall|i: int|
                    0 <= i < mo.len() && pl@.take(k3 as int + 1).contains(
                        (#[trigger] mo[i]).0,
                    ) implies annots_updated(mo[i].1, doc.objects@[i].1, rm, mo) by {
                    if i == oi as int {
                    } else if pl@.take(k3 as int).contains(mo[i].0) {
                        assert(doc.objects@[i] == before_arena[i]);
                    } else {
                        assert(mo[i].0 == pid);
                        assert(mo[i].0 == mo[oi as int].0);
                        assert(false);
                    }
                }
                assert(pl@.take(k3 as int + 1)[k3 as int] == pid);
                assert(pl@.take(k3 as int + 1).contains(pid));
                assert forall|i: int|
                    0 <= i < mo.len() && !pl@.take(k3 as int + 1).contains(
                        (#[trigger] mo[i]).0,
                    ) implies doc.objects@[i] == mo[i] by {
                    assert(mo[i].0 != pid);
                    assert(i != oi as int);
                    assert(doc.objects@[i] == before_arena[i]);
                }
            }
        }
        k3 = k3 + 1;
    }

    // The report.
    proof {
        assert(pl@.take(np as int) =~= pl@);
        assert(crate::document::doc_wf(*doc)) by {
            assert forall|i: int, j: int|
                0 <= i < j < doc.objects@.len() implies (#[trigger] doc.objects@[i]).0 != (
                #[trigger] doc.objects@[j]).0 by {
                assert(doc.objects@[i].0 == mo[i].0 && doc.objects@[j].0 == mo[j].0);
            }
            assert forall|i: int|
                0 <= i < doc.objects@.len() implies (#[trigger] doc.objects@[i]).0.num
                <= doc.max_id by {
                assert(doc.objects@[i].0 == mo[i].0);
                let w = choose|w: int| 0 <= w < m1.len() && #[trigger] mo[i] == m1[w];
                assert(m1[w].0.num <= d0.max_id);
            }
        }
    }
    let success = count > 0;
    let message = if count > 0 {
        let num = u64_to_string(count as u64);
        let mut msg = "Found and removed ".to_owned();
        msg.append(num.as_str());
        msg.append(" potential watermark element(s). Please check the output file.");
        proof {
            assert(msg@ == msg_found(count as int));
        }
        msg
    } else {
        "No obvious watermark elements were found. The watermark may be embedded in the page content, which cannot be easily removed.".to_owned()
    };
    Ok(WatermarkRemovalResult { success, items_removed: count, message })
}

/// Dropping counts never go negative.
proof fn lemma_dropped_upto_nonneg(
    m2: Seq<(ObjectId, Object)>,
    rm: Seq<ObjectId>,
    pl: Seq<ObjectId>,
    k: int,
)
    requires
        k <= pl.len(),
    ensures
        dropped_upto(m2, rm, pl, k) >= 0,
    decreases k,
{
    if k > 0 {
        lemma_dropped_upto_nonneg(m2, rm, pl, k - 1);
        lemma_dropped_count_nonneg_at(m2, rm, pl, k);
    }
}

/// A page sheds a non-negative number of entries.
proof fn lemma_dropped_count_nonneg_at(
    m2: Seq<(ObjectId, Object)>,
    rm: Seq<ObjectId>,
    pl: Seq<ObjectId>,
    k: int,
)
    requires
        0 < k <= pl.len(),
    ensures
        page_drop(m2, rm, pl[k - 1]) >= 0,
{
    match lookup(m2, pl[k - 1]) {
        Some(Object::Dictionary(d)) => {
            match dict_lookup(d@, k_annots()) {
                Some(Object::Array(v)) => {
                    lemma_dropped_count_nonneg(v@, rm, m2);
                },
                _ => {},
            }
        },
        _ => {},
    }
}

/// Dropped-entry counts of an array are non-negative.
proof fn lemma_dropped_count_nonneg(v: Seq<Object>, rm: Seq<ObjectId>, m2: Seq<(ObjectId, Object)>)
    ensures
        dropped_count(v, rm, m2) >= 0,
    decreases v.len(),
{
    if v.len() > 0 {
        lemma_dropped_count_nonneg(v.drop_first(), rm, m2);
    }
}

/// A page without a direct annotation array is left exactly as it stands.
proof fn lemma_annots_updated_trivial(
    o: Object,
    rm: Seq<ObjectId>,
    m2: Seq<(ObjectId, Object)>,
    pid: ObjectId,
    i: int,
    k: int,
)
    requires
        page_annots(m2, pid) is None,
        0 <= i < m2.len(),
        m2[i].0 == pid,
        crate::document::unique_ids(m2),
        o == m2[i].1,
    ensures
        annots_updated(o, o, rm, m2),
{
    crate::merge::lemma_unique_lookup_at(m2, i);
    match o {
        Object::Dictionary(d1) => {
            match dict_lookup(d1@, k_annots()) {
                Some(Object::Array(_)) => {
                    assert(false);
                },
                _ => {},
            }
        },
        _ => {},
    }
}

/// Filtering the arena cannot make the page walk run out: the surviving
/// graph resolves a subset of the identifiers to the same objects.
proof fn lemma_filtered_pages_some(m1: Seq<(ObjectId, Object)>, t: Seq<(Vec<u8>, Object)>)
    requires
        crate::document::unique_ids(m1),
        crate::document::page_seq_in(m1, t) is Some,
    ensures
        crate::document::page_seq_in(wm_filter(m1), t) is Some,
{
    let mo = wm_filter(m1);
    lemma_wm_filter_props(m1);
    match crate::document::pages_root_in(mo, t) {
        Some(rid) => {
            match lookup(mo, rid) {
                Some(Object::Dictionary(p)) => {
                    match crate::document::kids_of(p@) {
                        Some(kids) => {
                            assert(lookup(m1, rid) == Some(Object::Dictionary(p)));
                            assert(crate::document::ref_value(t, crate::document::k_root())
                                is Some);
                            let cid = crate::document::ref_value(
                                t,
                                crate::document::k_root(),
                            )->Some_0;
                            assert(lookup(mo, cid) is Some);
                            assert(lookup(m1, cid) == lookup(mo, cid));
                            assert(crate::document::pages_root_in(m1, t) == Some(rid));
                            assert(crate::document::walk_kids(
                                m1,
                                kids,
                                crate::document::page_fuel(),
                            ) is Some);
                            lemma_walk_kids_sub(m1, mo, kids, crate::document::page_fuel());
                        },
                        None => {},
                    }
                },
                _ => {},
            }
        },
        None => {},
    }
}

} // verus!

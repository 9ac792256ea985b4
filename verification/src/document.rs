use vstd::prelude::*;

verus! {

use crate::objects::ObjectId;
use crate::objects::Object;
use crate::objects::ascii_view;
use crate::objects::str_bytes;
use crate::objects::bytes_eq;

/// An in-memory PDF document: an arena of addressable objects, the trailer
/// dictionary, and the highest allocated object number, from which fresh
/// identifiers are minted.
#[derive(Debug, PartialEq, Eq)]
pub struct Document {
    pub objects: Vec<(ObjectId, Object)>,
    pub trailer: Vec<(Vec<u8>, Object)>,
    pub max_id: u32,
}

/// Everything that can go wrong inside the engine.  Loading and saving
/// failures belong to the unverified boundary and are not represented here.
#[derive(Clone, Copy, PartialEq, Eq, Structural, Debug)]
pub enum PdfError {
    /// An operation over a list of inputs was given an empty list.
    NoInput,
    /// Minting fresh identifiers would overflow the object-number space.
    TooManyObjects,
    /// The arena violates identifier uniqueness or the `max_id` bound.
    InvalidIds,
    /// Some reference does not resolve to a live object.
    DanglingReference,
    /// The page tree is cyclic, deeper than the arena allows, or lists the
    /// same page twice.
    MalformedPageTree,
    /// The catalog does not lead to a well-shaped root pages node.
    MissingPagesRoot,
    /// A page number was zero or larger than the page count.
    InvalidPageNumber(u32),
    /// A deletion request would leave the document without pages.
    CannotDeleteAllPages,
}

// The dictionary keys the engine reads, as byte sequences.

pub open spec fn k_type() -> Seq<u8> {
    ascii_view("Type"@)
}

pub open spec fn k_page() -> Seq<u8> {
    ascii_view("Page"@)
}

pub open spec fn k_pages() -> Seq<u8> {
    ascii_view("Pages"@)
}

pub open spec fn k_kids() -> Seq<u8> {
    ascii_view("Kids"@)
}

pub open spec fn k_count() -> Seq<u8> {
    ascii_view("Count"@)
}

pub open spec fn k_root() -> Seq<u8> {
    ascii_view("Root"@)
}

pub open spec fn k_parent() -> Seq<u8> {
    ascii_view("Parent"@)
}

pub fn key_type() -> (r: Vec<u8>)
    ensures
        r@ == k_type(),
{
    proof {
        reveal_strlit("Type");
    }
    str_bytes("Type")
}

pub fn key_page() -> (r: Vec<u8>)
    ensures
        r@ == k_page(),
{
    proof {
        reveal_strlit("Page");
    }
    str_bytes("Page")
}

pub fn key_pages() -> (r: Vec<u8>)
    ensures
        r@ == k_pages(),
{
    proof {
        reveal_strlit("Pages");
    }
    str_bytes("Pages")
}

pub fn key_kids() -> (r: Vec<u8>)
    ensures
        r@ == k_kids(),
{
    proof {
        reveal_strlit("Kids");
    }
    str_bytes("Kids")
}

pub fn key_count() -> (r: Vec<u8>)
    ensures
        r@ == k_count(),
{
    proof {
        reveal_strlit("Count");
    }
    str_bytes("Count")
}

pub fn key_root() -> (r: Vec<u8>)
    ensures
        r@ == k_root(),
{
    proof {
        reveal_strlit("Root");
    }
    str_bytes("Root")
}

pub fn key_parent() -> (r: Vec<u8>)
    ensures
        r@ == k_parent(),
{
    proof {
        reveal_strlit("Parent");
    }
    str_bytes("Parent")
}

/// First entry of a dictionary carrying `key`, if any.
pub open spec fn dict_lookup(entries: Seq<(Vec<u8>, Object)>, key: Seq<u8>) -> Option<Object>
    decreases entries.len(),
{
    if entries.len() == 0 {
        None
    } else if entries[0].0@ == key {
        Some(entries[0].1)
    } else {
        dict_lookup(entries.drop_first(), key)
    }
}

/// First arena entry addressed by `id`, if any.
pub open spec fn lookup(objs: Seq<(ObjectId, Object)>, id: ObjectId) -> Option<Object>
    decreases objs.len(),
{
    if objs.len() == 0 {
        None
    } else if objs[0].0 == id {
        Some(objs[0].1)
    } else {
        lookup(objs.drop_first(), id)
    }
}

/// No two arena entries share an identifier.
pub open spec fn unique_ids(objs: Seq<(ObjectId, Object)>) -> bool {
    forall|i: int, j: int|
        0 <= i < j < objs.len() ==> (#[trigger] objs[i]).0 != (#[trigger] objs[j]).0
}

/// Every live object number is at most `m`.
pub open spec fn ids_below(objs: Seq<(ObjectId, Object)>, m: u32) -> bool {
    forall|i: int| 0 <= i < objs.len() ==> (#[trigger] objs[i]).0.num <= m
}

/// The arena invariant: identifiers are unique and `max_id` bounds every
/// live object number.
pub open spec fn doc_wf(d: Document) -> bool {
    unique_ids(d.objects@) && ids_below(d.objects@, d.max_id)
}

/// Every reference inside `o` (walking arrays, dictionary values and stream
/// dictionary values) resolves in the arena.
pub open spec fn obj_closed(o: Object, objs: Seq<(ObjectId, Object)>) -> bool
    decreases o,
{
    match o {
        Object::Reference(id) => lookup(objs, id) is Some,
        Object::Array(v) => forall|i: int| 0 <= i < v@.len() ==> obj_closed(#[trigger] v@[i], objs),
        Object::Dictionary(d) => forall|i: int|
            0 <= i < d@.len() ==> obj_closed((#[trigger] d@[i]).1, objs),
        Object::Stream(d, _) => forall|i: int|
            0 <= i < d@.len() ==> obj_closed((#[trigger] d@[i]).1, objs),
        _ => true,
    }
}

/// Every reference in every live object and in the trailer resolves: the
/// graph has no dangling edges.
pub open spec fn doc_closed(d: Document) -> bool {
    (forall|i: int|
        0 <= i < d.objects@.len() ==> obj_closed((#[trigger] d.objects@[i]).1, d.objects@))
        && (forall|i: int|
        0 <= i < d.trailer@.len() ==> obj_closed((#[trigger] d.trailer@[i]).1, d.objects@))
}

/// No array element inside `o`, at any depth, is a reference to `id`.
pub open spec fn no_array_ref(o: Object, id: ObjectId) -> bool
    decreases o,
{
    match o {
        Object::Array(v) => forall|i: int|
            0 <= i < v@.len() ==> #[trigger] v@[i] != Object::Reference(id) && no_array_ref(
                v@[i],
                id,
            ),
        Object::Dictionary(d) => forall|i: int|
            0 <= i < d@.len() ==> no_array_ref((#[trigger] d@[i]).1, id),
        Object::Stream(d, _) => forall|i: int|
            0 <= i < d@.len() ==> no_array_ref((#[trigger] d@[i]).1, id),
        _ => true,
    }
}

/// Looks `key` up in a dictionary, first match first.
pub fn dict_get<'a>(entries: &'a Vec<(Vec<u8>, Object)>, key: &Vec<u8>) -> (r: Option<&'a Object>)
    ensures
        match r {
            Some(o) => dict_lookup(entries@, key@) == Some(*o),
            None => dict_lookup(entries@, key@) is None,
        },
{
    let mut i: usize = 0;
    proof {
        assert(entries@.skip(0) =~= entries@);
    }
    while i < entries.len()
        invariant
            0 <= i <= entries@.len(),
            dict_lookup(entries@, key@) == dict_lookup(entries@.skip(i as int), key@),
        decreases entries@.len() - i,
    {
        proof {
            assert(entries@.skip(i as int).drop_first() =~= entries@.skip(i as int + 1));
            assert(entries@.skip(i as int)[0] == entries@[i as int]);
        }
        if bytes_eq(entries[i].0.as_slice(), key.as_slice()) {
            return Some(&entries[i].1);
        }
        i = i + 1;
    }
    None
}

/// Finds the arena index holding `id`, first match first.
pub fn find_index(objs: &Vec<(ObjectId, Object)>, id: ObjectId) -> (r: Option<usize>)
    ensures
        match r {
            Some(i) => 0 <= i < objs@.len() && objs@[i as int].0 == id && lookup(objs@, id)
                == Some(objs@[i as int].1) && (forall|j: int|
                0 <= j < i ==> (#[trigger] objs@[j]).0 != id),
            None => lookup(objs@, id) is None,
        },
{
    let mut i: usize = 0;
    proof {
        assert(objs@.skip(0) =~= objs@);
    }
    while i < objs.len()
        invariant
            0 <= i <= objs@.len(),
            lookup(objs@, id) == lookup(objs@.skip(i as int), id),
            forall|j: int| 0 <= j < i ==> (#[trigger] objs@[j]).0 != id,
        decreases objs@.len() - i,
    {
        proof {
            assert(objs@.skip(i as int).drop_first() =~= objs@.skip(i as int + 1));
            assert(objs@.skip(i as int)[0] == objs@[i as int]);
        }
        if objs[i].0 == id {
            return Some(i);
        }
        i = i + 1;
    }
    None
}

/// Looks an object up by identifier.
pub fn get_object<'a>(objs: &'a Vec<(ObjectId, Object)>, id: ObjectId) -> (r: Option<&'a Object>)
    ensures
        match r {
            Some(o) => lookup(objs@, id) == Some(*o),
            None => lookup(objs@, id) is None,
        },
{
    match find_index(objs, id) {
        Some(i) => Some(&objs[i].1),
        None => None,
    }
}

/// The value under `key` when it is a name.
pub open spec fn name_value(entries: Seq<(Vec<u8>, Object)>, key: Seq<u8>) -> Option<Seq<u8>> {
    match dict_lookup(entries, key) {
        Some(Object::Name(n)) => Some(n@),
        _ => None,
    }
}

/// The value under `key` when it is a reference.
pub open spec fn ref_value(entries: Seq<(Vec<u8>, Object)>, key: Seq<u8>) -> Option<ObjectId> {
    match dict_lookup(entries, key) {
        Some(Object::Reference(id)) => Some(id),
        _ => None,
    }
}

/// The value under `key` when it is an integer.
pub open spec fn int_value(entries: Seq<(Vec<u8>, Object)>, key: Seq<u8>) -> Option<i64> {
    match dict_lookup(entries, key) {
        Some(Object::Integer(n)) => Some(n),
        _ => None,
    }
}

/// The elements of the `Kids` entry when it is a direct array.
pub open spec fn kids_of(entries: Seq<(Vec<u8>, Object)>) -> Option<Seq<Object>> {
    match dict_lookup(entries, k_kids()) {
        Some(Object::Array(v)) => Some(v@),
        _ => None,
    }
}

/// The leaf pages reached through one `Kids` entry, in document order.
/// A kid counts only when it is a reference to a live dictionary: a `Page`
/// type makes it a leaf, a `Pages` type is descended into, and anything
/// else is passed over.  `None` means the nesting outran `fuel`.
pub open spec fn walk_kid(objs: Seq<(ObjectId, Object)>, kid: Object, fuel: nat) -> Option<
    Seq<ObjectId>,
>
    decreases fuel, 0nat,
{
    match kid {
        Object::Reference(id) => match lookup(objs, id) {
            Some(Object::Dictionary(d)) => {
                let t = name_value(d@, k_type());
                if t == Some(k_page()) {
                    Some(seq![id])
                } else if t == Some(k_pages()) {
                    if fuel == 0 {
                        None
                    } else {
                        match kids_of(d@) {
                            Some(kids) => walk_kids(objs, kids, (fuel - 1) as nat),
                            None => Some(Seq::empty()),
                        }
                    }
                } else {
                    Some(Seq::empty())
                }
            },
            _ => Some(Seq::empty()),
        },
        _ => Some(Seq::empty()),
    }
}

/// The leaf pages reached through a `Kids` array, left to right.
pub open spec fn walk_kids(objs: Seq<(ObjectId, Object)>, kids: Seq<Object>, fuel: nat) -> Option<
    Seq<ObjectId>,
>
    decreases fuel, 1nat, kids.len(),
{
    if kids.len() == 0 {
        Some(Seq::empty())
    } else {
        match walk_kid(objs, kids[0], fuel) {
            None => None,
            Some(first) => match walk_kids(objs, kids.drop_first(), fuel) {
                None => None,
                Some(rest) => Some(first + rest),
            },
        }
    }
}

/// The catalog dictionary: the object the trailer's `Root` reference names.
pub open spec fn catalog_in(
    objs: Seq<(ObjectId, Object)>,
    trailer: Seq<(Vec<u8>, Object)>,
) -> Option<Seq<(Vec<u8>, Object)>> {
    match ref_value(trailer, k_root()) {
        Some(cid) => match lookup(objs, cid) {
            Some(Object::Dictionary(c)) => Some(c@),
            _ => None,
        },
        None => None,
    }
}

/// The catalog dictionary of a document.
pub open spec fn catalog_of(d: Document) -> Option<Seq<(Vec<u8>, Object)>> {
    catalog_in(d.objects@, d.trailer@)
}

/// The identifier of the root pages node, reached from the catalog.
pub open spec fn pages_root_in(
    objs: Seq<(ObjectId, Object)>,
    trailer: Seq<(Vec<u8>, Object)>,
) -> Option<ObjectId> {
    match catalog_in(objs, trailer) {
        Some(c) => ref_value(c, k_pages()),
        None => None,
    }
}

/// The identifier of a document's root pages node.
pub open spec fn pages_root_id(d: Document) -> Option<ObjectId> {
    pages_root_in(d.objects@, d.trailer@)
}

/// Nesting allowance for the page walk: page trees deeper than this are
/// treated as malformed, which also keeps the walk clear of reference
/// cycles.
pub open spec fn page_fuel() -> nat {
    256
}

/// The pages reachable from a graph given as raw object and trailer
/// entries, in document order, or `None` when the page tree nests deeper
/// than the walk allows.  A graph whose trailer or catalog does not lead
/// to a root pages dictionary with a direct `Kids` array simply has no
/// pages.
pub open spec fn page_seq_in(
    objs: Seq<(ObjectId, Object)>,
    trailer: Seq<(Vec<u8>, Object)>,
) -> Option<Seq<ObjectId>> {
    match pages_root_in(objs, trailer) {
        Some(rid) => match lookup(objs, rid) {
            Some(Object::Dictionary(p)) => match kids_of(p@) {
                Some(kids) => walk_kids(objs, kids, page_fuel()),
                None => Some(Seq::empty()),
            },
            _ => Some(Seq::empty()),
        },
        None => Some(Seq::empty()),
    }
}

/// The document's pages in document order, or `None` when the page tree
/// nests deeper than the walk allows.
pub open spec fn spec_page_seq(d: Document) -> Option<Seq<ObjectId>> {
    page_seq_in(d.objects@, d.trailer@)
}

/// The number of pages, counted over the page walk.
pub open spec fn spec_page_count(d: Document) -> nat {
    match spec_page_seq(d) {
        Some(s) => s.len(),
        None => 0,
    }
}

/// Walks one kid, appending the pages found to `acc`.  Returns `false`
/// exactly when the walk runs out of fuel.
fn walk_kid_exec(
    objs: &Vec<(ObjectId, Object)>,
    kid: &Object,
    fuel: usize,
    acc: &mut Vec<ObjectId>,
) -> (ok: bool)
    ensures
        ok ==> (walk_kid(objs@, *kid, fuel as nat) matches Some(sub) && final(acc)@ == old(acc)@
            + sub),
        !ok ==> walk_kid(objs@, *kid, fuel as nat) is None,
    decreases fuel, 0nat,
{
    let id = match kid {
        Object::Reference(id) => *id,
        _ => {
            proof {
                assert(walk_kid(objs@, *kid, fuel as nat) == Some(Seq::<ObjectId>::empty()));
                assert(acc@ + Seq::<ObjectId>::empty() =~= acc@);
            }
            return true;
        },
    };
    let entries = match get_object(objs, id) {
        Some(Object::Dictionary(entries)) => entries,
        _ => {
            proof {
                assert(acc@ + Seq::<ObjectId>::empty() =~= acc@);
            }
            return true;
        },
    };
    let tkey = key_type();
    let tname = match dict_get(entries, &tkey) {
        Some(Object::Name(n)) => n,
        _ => {
            proof {
                assert(name_value(entries@, k_type()) is None);
                assert(acc@ + Seq::<ObjectId>::empty() =~= acc@);
            }
            return true;
        },
    };
    let pg = key_page();
    if bytes_eq(tname.as_slice(), pg.as_slice()) {
        acc.push(id);
        proof {
            assert(walk_kid(objs@, *kid, fuel as nat) == Some(seq![id]));
            assert(acc@ =~= old(acc)@ + seq![id]);
        }
        return true;
    }
    let pgs = key_pages();
    if bytes_eq(tname.as_slice(), pgs.as_slice()) {
        if fuel == 0 {
            return false;
        }
        let kkey = key_kids();
        let kids = match dict_get(entries, &kkey) {
            Some(Object::Array(kids)) => kids,
            _ => {
                proof {
                    assert(kids_of(entries@) is None);
                    assert(acc@ + Seq::<ObjectId>::empty() =~= acc@);
                }
                return true;
            },
        };
        walk_kids_exec(objs, kids, fuel - 1, acc)
    } else {
        proof {
            assert(walk_kid(objs@, *kid, fuel as nat) == Some(Seq::<ObjectId>::empty()));
            assert(acc@ + Seq::<ObjectId>::empty() =~= acc@);
        }
        true
    }
}

/// Walks a `Kids` array left to right, appending the pages found to `acc`.
fn walk_kids_exec(
    objs: &Vec<(ObjectId, Object)>,
    kids: &Vec<Object>,
    fuel: usize,
    acc: &mut Vec<ObjectId>,
) -> (ok: bool)
    ensures
        ok ==> (walk_kids(objs@, kids@, fuel as nat) matches Some(sub) && final(acc)@ == old(acc)@
            + sub),
        !ok ==> walk_kids(objs@, kids@, fuel as nat) is None,
    decreases fuel, 1nat,
{
    let ghost acc0 = acc@;
    let mut i: usize = 0;
    proof {
        assert(kids@.skip(0) =~= kids@);
        assert(acc@.skip(acc0.len() as int) =~= Seq::<ObjectId>::empty());
    }
    while i < kids.len()
        invariant
            0 <= i <= kids@.len(),
            acc0.len() <= acc@.len(),
            acc0 == acc@.take(acc0.len() as int),
            forall|f2: Seq<ObjectId>|
                walk_kids(objs@, kids@.skip(i as int), fuel as nat) == Some(f2) ==> walk_kids(
                    objs@,
                    kids@,
                    fuel as nat,
                ) == Some(acc@.skip(acc0.len() as int) + f2),
            walk_kids(objs@, kids@.skip(i as int), fuel as nat) is None ==> walk_kids(
                objs@,
                kids@,
                fuel as nat,
            ) is None,
        decreases kids@.len() - i,
    {
        proof {
            assert(kids@.skip(i as int).drop_first() =~= kids@.skip(i as int + 1));
            assert(kids@.skip(i as int)[0] == kids@[i as int]);
        }
        let ghost acc_before = acc@;
        let ok = walk_kid_exec(objs, &kids[i], fuel, acc);
        if !ok {
            proof {
                assert(walk_kids(objs@, kids@.skip(i as int), fuel as nat) is None);
            }
            return false;
        }
        proof {
            let sub = walk_kid(objs@, kids@[i as int], fuel as nat)->Some_0;
            assert(acc@ == acc_before + sub);
            assert(acc@.take(acc0.len() as int) =~= acc_before.take(acc0.len() as int));
            assert(acc@.skip(acc0.len() as int) =~= acc_before.skip(acc0.len() as int) + sub);
            assert forall|f2: Seq<ObjectId>|
                walk_kids(objs@, kids@.skip(i as int + 1), fuel as nat) == Some(f2) implies walk_kids(
                objs@,
                kids@,
                fuel as nat,
            ) == Some(acc@.skip(acc0.len() as int) + f2) by {
                assert(walk_kids(objs@, kids@.skip(i as int), fuel as nat) == Some(sub + f2));
                assert(acc_before.skip(acc0.len() as int) + (sub + f2) =~= (
                acc_before.skip(acc0.len() as int) + sub) + f2);
            }
        }
        i = i + 1;
    }
    proof {
        assert(kids@.skip(kids@.len() as int).len() == 0);
        assert(walk_kids(objs@, kids@.skip(kids@.len() as int), fuel as nat) == Some(
            Seq::<ObjectId>::empty(),
        ));
        assert(acc@.skip(acc0.len() as int) + Seq::<ObjectId>::empty() =~= acc@.skip(
            acc0.len() as int,
        ));
        assert(acc0 + acc@.skip(acc0.len() as int) =~= acc@);
    }
    true
}

/// Index of the first arena entry addressed by `id`; meaningful only when
/// `lookup` finds one.
pub open spec fn index_of_id(objs: Seq<(ObjectId, Object)>, id: ObjectId) -> int
    decreases objs.len(),
{
    if objs.len() == 0 {
        0
    } else if objs[0].0 == id {
        0
    } else {
        1 + index_of_id(objs.drop_first(), id)
    }
}

/// Index of the first dictionary entry carrying `key`; meaningful only when
/// `dict_lookup` finds one.
pub open spec fn key_index(entries: Seq<(Vec<u8>, Object)>, key: Seq<u8>) -> int
    decreases entries.len(),
{
    if entries.len() == 0 {
        0
    } else if entries[0].0@ == key {
        0
    } else {
        1 + key_index(entries.drop_first(), key)
    }
}

/// A successful lookup names the entry at `index_of_id`, and nothing before
/// it carries the same identifier.
pub proof fn lemma_lookup_index(objs: Seq<(ObjectId, Object)>, id: ObjectId)
    requires
        lookup(objs, id) is Some,
    ensures
        0 <= index_of_id(objs, id) < objs.len(),
        objs[index_of_id(objs, id)].0 == id,
        lookup(objs, id) == Some(objs[index_of_id(objs, id)].1),
        forall|j: int| 0 <= j < index_of_id(objs, id) ==> (#[trigger] objs[j]).0 != id,
    decreases objs.len(),
{
    if objs.len() > 0 && objs[0].0 != id {
        lemma_lookup_index(objs.drop_first(), id);
        assert forall|j: int| 0 <= j < index_of_id(objs, id) implies (#[trigger] objs[j]).0
            != id by {
            if j > 0 {
                assert(objs.drop_first()[j - 1] == objs[j]);
            }
        }
    }
}

/// A failed lookup means no entry carries the identifier.
pub proof fn lemma_lookup_none(objs: Seq<(ObjectId, Object)>, id: ObjectId)
    requires
        lookup(objs, id) is None,
    ensures
        forall|j: int| 0 <= j < objs.len() ==> (#[trigger] objs[j]).0 != id,
    decreases objs.len(),
{
    if objs.len() > 0 {
        lemma_lookup_none(objs.drop_first(), id);
        assert forall|j: int| 0 <= j < objs.len() implies (#[trigger] objs[j]).0 != id by {
            if j > 0 {
                assert(objs.drop_first()[j - 1] == objs[j]);
            }
        }
    }
}

/// Looking up in a concatenation reads the left part first.
pub proof fn lemma_lookup_concat(a: Seq<(ObjectId, Object)>, b: Seq<(ObjectId, Object)>, id: ObjectId)
    ensures
        lookup(a + b, id) == (if lookup(a, id) is Some {
            lookup(a, id)
        } else {
            lookup(b, id)
        }),
    decreases a.len(),
{
    if a.len() == 0 {
        assert(a + b =~= b);
    } else {
        assert((a + b)[0] == a[0]);
        if a[0].0 != id {
            assert((a + b).drop_first() =~= a.drop_first() + b);
            lemma_lookup_concat(a.drop_first(), b, id);
        }
    }
}

/// Lookups agree on two arenas that list the same identifiers in the same
/// order and agree on every entry carrying the identifier in question.
pub proof fn lemma_lookup_pointwise(
    a: Seq<(ObjectId, Object)>,
    b: Seq<(ObjectId, Object)>,
    id: ObjectId,
)
    requires
        a.len() == b.len(),
        forall|i: int| 0 <= i < a.len() ==> (#[trigger] b[i]).0 == a[i].0,
        forall|i: int| 0 <= i < a.len() && (#[trigger] a[i]).0 == id ==> b[i].1 == a[i].1,
    ensures
        lookup(b, id) == lookup(a, id),
    decreases a.len(),
{
    if a.len() > 0 {
        assert(a[0] == a.first());
        if a[0].0 != id {
            lemma_lookup_pointwise(a.drop_first(), b.drop_first(), id);
        }
    }
}

/// Dictionary lookups agree on two entry lists with equal keys in equal
/// order that agree on every entry carrying the key in question.
pub proof fn lemma_dict_lookup_pointwise(
    a: Seq<(Vec<u8>, Object)>,
    b: Seq<(Vec<u8>, Object)>,
    key: Seq<u8>,
)
    requires
        a.len() == b.len(),
        forall|i: int| 0 <= i < a.len() ==> (#[trigger] b[i]).0@ == a[i].0@,
        forall|i: int| 0 <= i < a.len() && (#[trigger] a[i]).0@ == key ==> b[i].1 == a[i].1,
    ensures
        dict_lookup(b, key) == dict_lookup(a, key),
    decreases a.len(),
{
    if a.len() > 0 {
        if a[0].0@ != key {
            lemma_dict_lookup_pointwise(a.drop_first(), b.drop_first(), key);
        }
    }
}

/// A successful dictionary lookup names the entry at `key_index`, and
/// nothing before it carries the same key.
pub proof fn lemma_dict_lookup_index(entries: Seq<(Vec<u8>, Object)>, key: Seq<u8>)
    requires
        dict_lookup(entries, key) is Some,
    ensures
        0 <= key_index(entries, key) < entries.len(),
        entries[key_index(entries, key)].0@ == key,
        dict_lookup(entries, key) == Some(entries[key_index(entries, key)].1),
        forall|j: int| 0 <= j < key_index(entries, key) ==> (#[trigger] entries[j]).0@ != key,
    decreases entries.len(),
{
    if entries.len() > 0 && entries[0].0@ != key {
        lemma_dict_lookup_index(entries.drop_first(), key);
        assert forall|j: int| 0 <= j < key_index(entries, key) implies (#[trigger] entries[j]).0@
            != key by {
            if j > 0 {
                assert(entries.drop_first()[j - 1] == entries[j]);
            }
        }
    }
}

/// A dictionary whose first occurrence of `key` stands at `i` looks `key`
/// up to that entry's value.
pub proof fn lemma_dict_first_at(entries: Seq<(Vec<u8>, Object)>, key: Seq<u8>, i: int)
    requires
        0 <= i < entries.len(),
        entries[i].0@ == key,
        forall|j: int| 0 <= j < i ==> (#[trigger] entries[j]).0@ != key,
    ensures
        dict_lookup(entries, key) == Some(entries[i].1),
        key_index(entries, key) == i,
    decreases i,
{
    if i > 0 {
        lemma_dict_first_at(entries.drop_first(), key, i - 1);
        assert(entries.drop_first()[i - 1] == entries[i]);
        assert forall|j: int| 0 <= j < i - 1 implies (#[trigger] entries.drop_first()[j]).0@
            != key by {
            assert(entries.drop_first()[j] == entries[j + 1]);
        }
    }
}

/// Finds the first dictionary entry carrying `key`.
pub fn find_key(entries: &Vec<(Vec<u8>, Object)>, key: &Vec<u8>) -> (r: Option<usize>)
    ensures
        match r {
            Some(i) => 0 <= i < entries@.len() && entries@[i as int].0@ == key@ && i as int
                == key_index(entries@, key@) && dict_lookup(entries@, key@) == Some(
                entries@[i as int].1,
            ) && (forall|j: int| 0 <= j < i ==> (#[trigger] entries@[j]).0@ != key@),
            None => dict_lookup(entries@, key@) is None,
        },
{
    let mut i: usize = 0;
    while i < entries.len()
        invariant
            0 <= i <= entries@.len(),
            forall|j: int| 0 <= j < i ==> (#[trigger] entries@[j]).0@ != key@,
        decreases entries@.len() - i,
    {
        if bytes_eq(entries[i].0.as_slice(), key.as_slice()) {
            proof {
                lemma_dict_first_at(entries@, key@, i as int);
            }
            return Some(i);
        }
        i = i + 1;
    }
    proof {
        lemma_dict_none(entries@, key@);
    }
    None
}

/// A dictionary with no entry carrying `key` has nothing to look up.
pub proof fn lemma_dict_none(entries: Seq<(Vec<u8>, Object)>, key: Seq<u8>)
    requires
        forall|j: int| 0 <= j < entries.len() ==> (#[trigger] entries[j]).0@ != key,
    ensures
        dict_lookup(entries, key) is None,
    decreases entries.len(),
{
    if entries.len() > 0 {
        assert forall|j: int| 0 <= j < entries.drop_first().len() implies (#[trigger] entries.drop_first()[j]).0@
            != key by {
            assert(entries.drop_first()[j] == entries[j + 1]);
        }
        lemma_dict_none(entries.drop_first(), key);
    }
}

/// Every page the page walk yields is a live dictionary typed `Page`.
pub proof fn lemma_page_seq_in_live(objs: Seq<(ObjectId, Object)>, trailer: Seq<(Vec<u8>, Object)>)
    requires
        page_seq_in(objs, trailer) is Some,
    ensures
        forall|i: int|
            0 <= i < page_seq_in(objs, trailer)->Some_0.len() ==> (lookup(
                objs,
                #[trigger] page_seq_in(objs, trailer)->Some_0[i],
            ) matches Some(Object::Dictionary(p)) && name_value(p@, k_type()) == Some(k_page())),
{
    match pages_root_in(objs, trailer) {
        Some(rid) => {
            match lookup(objs, rid) {
                Some(Object::Dictionary(p)) => {
                    match kids_of(p@) {
                        Some(kids) => {
                            crate::merge::lemma_walk_pages_live(
                                objs,
                                kids,
                                page_fuel(),
                                page_seq_in(objs, trailer)->Some_0,
                            );
                        },
                        None => {},
                    }
                },
                _ => {},
            }
        },
        None => {},
    }
}

/// Every page the page walk yields is a live dictionary typed `Page`.
pub proof fn lemma_page_seq_live(d: Document)
    requires
        spec_page_seq(d) is Some,
    ensures
        forall|i: int|
            0 <= i < spec_page_seq(d)->Some_0.len() ==> (lookup(
                d.objects@,
                #[trigger] spec_page_seq(d)->Some_0[i],
            ) matches Some(Object::Dictionary(p)) && name_value(p@, k_type()) == Some(k_page())),
{
    lemma_page_seq_in_live(d.objects@, d.trailer@);
}

/// Decides `obj_closed`: whether every reference inside `o` resolves.
pub fn check_obj_closed(o: &Object, objs: &Vec<(ObjectId, Object)>) -> (r: bool)
    ensures
        r == obj_closed(*o, objs@),
    decreases *o,
{
    match o {
        Object::Reference(id) => {
            proof {
                assert(*o == Object::Reference(*id));
            }
            match get_object(objs, *id) {
                Some(_) => true,
                None => false,
            }
        },
        Object::Array(v) => {
            proof {
                assert(*o == Object::Array(*v));
                assert(decreases_to!(Object::Array(*v) => *v));
            }
            check_arr_closed(v, objs)
        },
        Object::Dictionary(d) => {
            proof {
                assert(*o == Object::Dictionary(*d));
                assert(decreases_to!(Object::Dictionary(*d) => *d));
            }
            check_dict_closed(d, objs)
        },
        Object::Stream(d, c) => {
            proof {
                assert(*o == Object::Stream(*d, *c));
                assert(decreases_to!(Object::Stream(*d, *c) => *d));
            }
            check_dict_closed(d, objs)
        },
        _ => true,
    }
}

/// Decides whether every reference inside each array element resolves.
fn check_arr_closed(v: &Vec<Object>, objs: &Vec<(ObjectId, Object)>) -> (r: bool)
    ensures
        r == (forall|i: int| 0 <= i < v@.len() ==> obj_closed(#[trigger] v@[i], objs@)),
    decreases *v,
{
    let mut i: usize = 0;
    while i < v.len()
        invariant
            0 <= i <= v@.len(),
            forall|j: int| 0 <= j < i ==> obj_closed(#[trigger] v@[j], objs@),
        decreases v@.len() - i,
    {
        proof {
            assert(decreases_to!(*v => v[i as int]));
        }
        if !check_obj_closed(&v[i], objs) {
            return false;
        }
        i = i + 1;
    }
    true
}

/// Decides whether every reference inside each dictionary value resolves.
fn check_dict_closed(d: &Vec<(Vec<u8>, Object)>, objs: &Vec<(ObjectId, Object)>) -> (r: bool)
    ensures
        r == (forall|i: int| 0 <= i < d@.len() ==> obj_closed((#[trigger] d@[i]).1, objs@)),
    decreases *d,
{
    let mut i: usize = 0;
    while i < d.len()
        invariant
            0 <= i <= d@.len(),
            forall|j: int| 0 <= j < i ==> obj_closed((#[trigger] d@[j]).1, objs@),
        decreases d@.len() - i,
    {
        proof {
            assert(decreases_to!(*d => d[i as int]));
            assert(decreases_to!(d[i as int] => d[i as int].1));
        }
        if !check_obj_closed(&d[i].1, objs) {
            return false;
        }
        i = i + 1;
    }
    true
}

/// Decides `doc_wf`: identifier uniqueness and the `max_id` bound.
pub fn check_wf(doc: &Document) -> (r: bool)
    ensures
        r == doc_wf(*doc),
{
    let n = doc.objects.len();
    let mut i: usize = 0;
    while i < n
        invariant
            0 <= i <= doc.objects@.len(),
            n == doc.objects@.len(),
            forall|p: int, q: int|
                0 <= p < q < doc.objects@.len() && p < i ==> (#[trigger] doc.objects@[p]).0 != (
                #[trigger] doc.objects@[q]).0,
            forall|p: int| 0 <= p < i ==> (#[trigger] doc.objects@[p]).0.num <= doc.max_id,
        decreases doc.objects@.len() - i,
    {
        if doc.objects[i].0.num > doc.max_id {
            return false;
        }
        let mut j: usize = i + 1;
        while j < n
            invariant
                0 <= i < j <= doc.objects@.len(),
                n == doc.objects@.len(),
                forall|q: int|
                    i < q < j ==> (#[trigger] doc.objects@[q]).0 != doc.objects@[i as int].0,
            decreases doc.objects@.len() - j,
        {
            if doc.objects[j].0 == doc.objects[i].0 {
                return false;
            }
            j = j + 1;
        }
        i = i + 1;
    }
    true
}

/// Decides `doc_closed`: no dangling reference anywhere in the graph.
pub fn check_closed(doc: &Document) -> (r: bool)
    ensures
        r == doc_closed(*doc),
{
    let mut i: usize = 0;
    while i < doc.objects.len()
        invariant
            0 <= i <= doc.objects@.len(),
            forall|j: int|
                0 <= j < i ==> obj_closed((#[trigger] doc.objects@[j]).1, doc.objects@),
        decreases doc.objects@.len() - i,
    {
        if !check_obj_closed(&doc.objects[i].1, &doc.objects) {
            return false;
        }
        i = i + 1;
    }
    check_dict_closed(&doc.trailer, &doc.objects)
}

/// Decides `no_array_ref`: no array element inside `o` references `id`.
pub fn check_no_array_ref(o: &Object, id: ObjectId) -> (r: bool)
    ensures
        r == no_array_ref(*o, id),
    decreases *o,
{
    match o {
        Object::Array(v) => {
            proof {
                assert(*o == Object::Array(*v));
                assert(decreases_to!(Object::Array(*v) => *v));
            }
            check_arr_no_ref(v, id)
        },
        Object::Dictionary(d) => {
            proof {
                assert(*o == Object::Dictionary(*d));
                assert(decreases_to!(Object::Dictionary(*d) => *d));
            }
            check_dict_no_ref(d, id)
        },
        Object::Stream(d, c) => {
            proof {
                assert(*o == Object::Stream(*d, *c));
                assert(decreases_to!(Object::Stream(*d, *c) => *d));
            }
            check_dict_no_ref(d, id)
        },
        _ => true,
    }
}

/// Decides `no_array_ref` for each element of an array, which must also not
/// itself be a reference to `id`.
fn check_arr_no_ref(v: &Vec<Object>, id: ObjectId) -> (r: bool)
    ensures
        r == (forall|i: int|
            0 <= i < v@.len() ==> #[trigger] v@[i] != Object::Reference(id) && no_array_ref(
                v@[i],
                id,
            )),
    decreases *v,
{
    let mut i: usize = 0;
    while i < v.len()
        invariant
            0 <= i <= v@.len(),
            forall|j: int|
                0 <= j < i ==> #[trigger] v@[j] != Object::Reference(id) && no_array_ref(
                    v@[j],
                    id,
                ),
        decreases v@.len() - i,
    {
        proof {
            assert(decreases_to!(*v => v[i as int]));
        }
        match &v[i] {
            Object::Reference(rid) => {
                if rid.num == id.num && rid.gen == id.gen {
                    proof {
                        assert(v@[i as int] == Object::Reference(id));
                    }
                    return false;
                }
                proof {
                    assert(v@[i as int] != Object::Reference(id));
                }
            },
            _ => {
                proof {
                    assert(v@[i as int] != Object::Reference(id));
                }
            },
        }
        if !check_no_array_ref(&v[i], id) {
            return false;
        }
        i = i + 1;
    }
    true
}

/// Decides `no_array_ref` for every value of a dictionary.
fn check_dict_no_ref(d: &Vec<(Vec<u8>, Object)>, id: ObjectId) -> (r: bool)
    ensures
        r == (forall|i: int| 0 <= i < d@.len() ==> no_array_ref((#[trigger] d@[i]).1, id)),
    decreases *d,
{
    let mut i: usize = 0;
    while i < d.len()
        invariant
            0 <= i <= d@.len(),
            forall|j: int| 0 <= j < i ==> no_array_ref((#[trigger] d@[j]).1, id),
        decreases d@.len() - i,
    {
        proof {
            assert(decreases_to!(*d => d[i as int]));
            assert(decreases_to!(d[i as int] => d[i as int].1));
        }
        if !check_no_array_ref(&d[i].1, id) {
            return false;
        }
        i = i + 1;
    }
    true
}

/// The pages reachable from raw object and trailer entries, or an error
/// when the page tree nests deeper than the walk allows.
pub fn page_ids_in(objs: &Vec<(ObjectId, Object)>, trailer: &Vec<(Vec<u8>, Object)>) -> (r: Result<
    Vec<ObjectId>,
    PdfError,
>)
    ensures
        match r {
            Ok(v) => page_seq_in(objs@, trailer@) == Some(v@),
            Err(e) => e == PdfError::MalformedPageTree && page_seq_in(objs@, trailer@) is None,
        },
{
    let mut acc: Vec<ObjectId> = Vec::new();
    let rkey = key_root();
    let cid = match dict_get(trailer, &rkey) {
        Some(Object::Reference(cid)) => *cid,
        _ => {
            return Ok(acc);
        },
    };
    let c = match get_object(objs, cid) {
        Some(Object::Dictionary(c)) => c,
        _ => {
            return Ok(acc);
        },
    };
    let pkey = key_pages();
    let rid = match dict_get(c, &pkey) {
        Some(Object::Reference(rid)) => *rid,
        _ => {
            return Ok(acc);
        },
    };
    let p = match get_object(objs, rid) {
        Some(Object::Dictionary(p)) => p,
        _ => {
            return Ok(acc);
        },
    };
    let kkey = key_kids();
    let kids = match dict_get(p, &kkey) {
        Some(Object::Array(kids)) => kids,
        _ => {
            return Ok(acc);
        },
    };
    if walk_kids_exec(objs, kids, 256, &mut acc) {
        proof {
            assert(Seq::<ObjectId>::empty() + acc@ =~= acc@);
        }
        Ok(acc)
    } else {
        Err(PdfError::MalformedPageTree)
    }
}

/// The pages of the document in document order, or an error when the page
/// tree nests deeper than the walk allows.
pub fn page_ids(doc: &Document) -> (r: Result<Vec<ObjectId>, PdfError>)
    ensures
        match r {
            Ok(v) => spec_page_seq(*doc) == Some(v@),
            Err(e) => e == PdfError::MalformedPageTree && spec_page_seq(*doc) is None,
        },
{
    page_ids_in(&doc.objects, &doc.trailer)
}

} // verus!

use vstd::prelude::*;

verus! {

use crate::objects::ObjectId;
use crate::objects::Object;
use crate::objects::rewritten;
use crate::objects::mapped_id;
use crate::objects::remap_of;
use crate::document::Document;
use crate::document::PdfError;
use crate::document::lookup;
use crate::document::dict_lookup;
use crate::document::index_of_id;
use crate::document::key_index;
use crate::document::unique_ids;
use crate::document::ids_below;
use crate::document::doc_wf;
use crate::document::doc_closed;
use crate::document::obj_closed;
use crate::document::no_array_ref;
use crate::document::name_value;
use crate::document::int_value;
use crate::document::kids_of;
use crate::document::walk_kid;
use crate::document::walk_kids;
use crate::document::pages_root_id;
use crate::document::spec_page_seq;
use crate::document::spec_page_count;
use crate::document::k_type;
use crate::document::k_page;
use crate::document::k_pages;
use crate::document::k_kids;
use crate::document::k_count;
use crate::document::lemma_lookup_index;
use crate::document::lemma_lookup_none;

/// The identifier minted for the source object at index `j` when the base's
/// highest object number is `off`.
pub open spec fn minted(off: int, j: int) -> ObjectId {
    ObjectId { num: (off + j + 1) as u32, gen: 0u16 }
}

/// The translation table built for one source: its `j`-th object maps to
/// the `j`-th minted identifier.
pub open spec fn spec_table(src: Seq<(ObjectId, Object)>, off: int) -> Seq<(ObjectId, ObjectId)> {
    Seq::new(src.len(), |j: int| (src[j].0, minted(off, j)))
}

/// The source's pages after translation: each page identifier replaced by
/// the identifier minted for that object.
pub open spec fn remapped_pages(src: Document, off: int) -> Seq<ObjectId> {
    match spec_page_seq(src) {
        Some(ps) => Seq::new(ps.len(), |i: int| minted(off, index_of_id(src.objects@, ps[i]))),
        None => Seq::empty(),
    }
}

/// What the translation table holds for a live source identifier.
pub proof fn lemma_table_maps(src: Seq<(ObjectId, Object)>, off: int, id: ObjectId)
    requires
        lookup(src, id) is Some,
    ensures
        remap_of(spec_table(src, off), id) == Some(minted(off, index_of_id(src, id))),
        mapped_id(spec_table(src, off), id) == minted(off, index_of_id(src, id)),
    decreases src.len(),
{
    let table = spec_table(src, off);
    if src[0].0 == id {
        assert(table[0] == (src[0].0, minted(off, 0)));
    } else {
        lemma_table_maps(src.drop_first(), off + 1, id);
        assert(table.drop_first() =~= spec_table(src.drop_first(), off + 1));
        assert(table[0] == (src[0].0, minted(off, 0)));
    }
}

/// Every page the walk yields is a live dictionary typed `Page`.
pub proof fn lemma_walk_pages_live(
    objs: Seq<(ObjectId, Object)>,
    kids: Seq<Object>,
    fuel: nat,
    ps: Seq<ObjectId>,
)
    requires
        walk_kids(objs, kids, fuel) == Some(ps),
    ensures
        forall|i: int|
            0 <= i < ps.len() ==> (lookup(objs, #[trigger] ps[i]) matches Some(
                Object::Dictionary(d),
            ) && name_value(d@, k_type()) == Some(k_page())),
    decreases fuel, 1nat, kids.len(),
{
    if kids.len() > 0 {
        let first = walk_kid(objs, kids[0], fuel)->Some_0;
        let rest = walk_kids(objs, kids.drop_first(), fuel)->Some_0;
        assert(ps == first + rest);
        lemma_walk_kid_pages_live(objs, kids[0], fuel, first);
        lemma_walk_pages_live(objs, kids.drop_first(), fuel, rest);
        assert forall|i: int| 0 <= i < ps.len() implies (lookup(objs, #[trigger] ps[i]) matches Some(
            Object::Dictionary(d),
        ) && name_value(d@, k_type()) == Some(k_page())) by {
            if i < first.len() {
                assert(ps[i] == first[i]);
            } else {
                assert(ps[i] == rest[i - first.len()]);
            }
        }
    }
}

/// Every page one kid yields is a live dictionary typed `Page`.
pub proof fn lemma_walk_kid_pages_live(
    objs: Seq<(ObjectId, Object)>,
    kid: Object,
    fuel: nat,
    ps: Seq<ObjectId>,
)
    requires
        walk_kid(objs, kid, fuel) == Some(ps),
    ensures
        forall|i: int|
            0 <= i < ps.len() ==> (lookup(objs, #[trigger] ps[i]) matches Some(
                Object::Dictionary(d),
            ) && name_value(d@, k_type()) == Some(k_page())),
    decreases fuel, 0nat,
{
    match kid {
        Object::Reference(id) => {
            match lookup(objs, id) {
                Some(Object::Dictionary(d)) => {
                    let t = name_value(d@, k_type());
                    if t == Some(k_page()) {
                        assert(ps =~= seq![id]);
                    } else if t == Some(k_pages()) && fuel > 0 {
                        match kids_of(d@) {
                            Some(kids2) => {
                                lemma_walk_pages_live(objs, kids2, (fuel - 1) as nat, ps);
                            },
                            None => {},
                        }
                    }
                },
                _ => {},
            }
        },
        _ => {},
    }
}

/// A rewritten copy of a closed source object is closed in any arena that
/// holds every translated identifier, and its arrays never mention an
/// identifier the table avoids.
pub proof fn lemma_rewritten_closed(
    o: Object,
    o2: Object,
    table: Seq<(ObjectId, ObjectId)>,
    srcobjs: Seq<(ObjectId, Object)>,
    newobjs: Seq<(ObjectId, Object)>,
    rid: ObjectId,
)
    requires
        obj_closed(o, srcobjs),
        rewritten(o, o2, table),
        forall|id: ObjectId|
            lookup(srcobjs, id) is Some ==> lookup(newobjs, #[trigger] mapped_id(table, id))
                is Some && mapped_id(table, id) != rid,
    ensures
        obj_closed(o2, newobjs),
        no_array_ref(o2, rid),
    decreases o,
{
    match o {
        Object::Array(v) => {
            let w = o2->Array_0;
            assert forall|i: int|
                0 <= i < w@.len() implies obj_closed(#[trigger] w@[i], newobjs) && w@[i]
                != Object::Reference(rid) && no_array_ref(w@[i], rid) by {
                assert(obj_closed(v@[i], srcobjs));
                assert(rewritten(v@[i], w@[i], table));
                lemma_rewritten_closed(v@[i], w@[i], table, srcobjs, newobjs, rid);
                match v@[i] {
                    Object::Reference(id) => {
                        assert(w@[i] == Object::Reference(mapped_id(table, id)));
                    },
                    _ => {},
                }
            }
        },
        Object::Dictionary(d) => {
            let e = o2->Dictionary_0;
            assert forall|i: int|
                0 <= i < e@.len() implies obj_closed((#[trigger] e@[i]).1, newobjs)
                && no_array_ref(e@[i].1, rid) by {
                assert(obj_closed(d@[i].1, srcobjs));
                assert(rewritten(d@[i].1, e@[i].1, table));
                lemma_rewritten_closed(d@[i].1, e@[i].1, table, srcobjs, newobjs, rid);
            }
        },
        Object::Stream(d, _) => {
            let e = o2->Stream_0;
            assert forall|i: int|
                0 <= i < e@.len() implies obj_closed((#[trigger] e@[i]).1, newobjs)
                && no_array_ref(e@[i].1, rid) by {
                assert(obj_closed(d@[i].1, srcobjs));
                assert(rewritten(d@[i].1, e@[i].1, table));
                lemma_rewritten_closed(d@[i].1, e@[i].1, table, srcobjs, newobjs, rid);
            }
        },
        Object::Reference(id) => {
            assert(o2 == Object::Reference(mapped_id(table, id)));
        },
        _ => {},
    }
}

/// An object closed in one arena stays closed in any arena that resolves
/// at least the same identifiers.
pub proof fn lemma_closed_monotone(
    o: Object,
    a: Seq<(ObjectId, Object)>,
    b: Seq<(ObjectId, Object)>,
)
    requires
        obj_closed(o, a),
        forall|id: ObjectId| #[trigger] lookup(a, id) is Some ==> lookup(b, id) is Some,
    ensures
        obj_closed(o, b),
    decreases o,
{
    match o {
        Object::Array(v) => {
            assert forall|i: int| 0 <= i < v@.len() implies obj_closed(#[trigger] v@[i], b) by {
                lemma_closed_monotone(v@[i], a, b);
            }
        },
        Object::Dictionary(d) => {
            assert forall|i: int| 0 <= i < d@.len() implies obj_closed((#[trigger] d@[i]).1, b) by {
                lemma_closed_monotone(d@[i].1, a, b);
            }
        },
        Object::Stream(d, _) => {
            assert forall|i: int| 0 <= i < d@.len() implies obj_closed((#[trigger] d@[i]).1, b) by {
                lemma_closed_monotone(d@[i].1, a, b);
            }
        },
        _ => {},
    }
}

/// Two arenas listing the same identifiers in the same order resolve the
/// same identifiers.
pub proof fn lemma_lookup_same_ids(
    a: Seq<(ObjectId, Object)>,
    b: Seq<(ObjectId, Object)>,
    id: ObjectId,
)
    requires
        a.len() == b.len(),
        forall|i: int| 0 <= i < a.len() ==> (#[trigger] b[i]).0 == a[i].0,
    ensures
        lookup(a, id) is Some <==> lookup(b, id) is Some,
    decreases a.len(),
{
    if a.len() > 0 && a[0].0 != id {
        lemma_lookup_same_ids(a.drop_first(), b.drop_first(), id);
    }
}

/// Walking a concatenation of kids arrays walks the parts in order.
pub proof fn lemma_walk_kids_concat(
    objs: Seq<(ObjectId, Object)>,
    a: Seq<Object>,
    b: Seq<Object>,
    fuel: nat,
)
    ensures
        walk_kids(objs, a, fuel) is None ==> walk_kids(objs, a + b, fuel) is None,
        walk_kids(objs, a, fuel) is Some && walk_kids(objs, b, fuel) is None ==> walk_kids(
            objs,
            a + b,
            fuel,
        ) is None,
        walk_kids(objs, a, fuel) is Some && walk_kids(objs, b, fuel) is Some ==> walk_kids(
            objs,
            a + b,
            fuel,
        ) == Some(walk_kids(objs, a, fuel)->Some_0 + walk_kids(objs, b, fuel)->Some_0),
    decreases a.len(),
{
    if a.len() == 0 {
        assert(a + b =~= b);
        if walk_kids(objs, b, fuel) is Some {
            let sb = walk_kids(objs, b, fuel)->Some_0;
            assert(Seq::<ObjectId>::empty() + sb =~= sb);
        }
    } else {
        assert((a + b)[0] == a[0]);
        assert((a + b).drop_first() =~= a.drop_first() + b);
        lemma_walk_kids_concat(objs, a.drop_first(), b, fuel);
        match walk_kid(objs, a[0], fuel) {
            None => {
                assert(walk_kids(objs, a, fuel) is None);
                assert(walk_kids(objs, a + b, fuel) is None);
            },
            Some(first) => {
                match walk_kids(objs, a.drop_first(), fuel) {
                    None => {
                        assert(walk_kids(objs, a, fuel) is None);
                        assert(walk_kids(objs, a.drop_first() + b, fuel) is None);
                        assert(walk_kids(objs, a + b, fuel) is None);
                    },
                    Some(ra) => {
                        assert(walk_kids(objs, a, fuel) == Some(first + ra));
                        match walk_kids(objs, b, fuel) {
                            None => {
                                assert(walk_kids(objs, a.drop_first() + b, fuel) is None);
                                assert(walk_kids(objs, a + b, fuel) is None);
                            },
                            Some(sb) => {
                                assert(walk_kids(objs, a.drop_first() + b, fuel) == Some(ra + sb));
                                assert(walk_kids(objs, a + b, fuel) == Some(first + (ra + sb)));
                                assert(first + (ra + sb) =~= (first + ra) + sb);
                            },
                        }
                    },
                }
            },
        }
    }
}

/// A walk over references to live `Page` dictionaries yields exactly those
/// identifiers, whatever the fuel.
pub proof fn lemma_walk_leaf_refs(
    objs: Seq<(ObjectId, Object)>,
    refs: Seq<Object>,
    added: Seq<ObjectId>,
    fuel: nat,
)
    requires
        refs.len() == added.len(),
        forall|j: int| 0 <= j < refs.len() ==> #[trigger] refs[j] == Object::Reference(added[j]),
        forall|j: int|
            0 <= j < added.len() ==> (lookup(objs, #[trigger] added[j]) matches Some(
                Object::Dictionary(d),
            ) && name_value(d@, k_type()) == Some(k_page())),
    ensures
        walk_kids(objs, refs, fuel) == Some(added),
    decreases refs.len(),
{
    if refs.len() > 0 {
        assert(refs[0] == Object::Reference(added[0]));
        assert(walk_kid(objs, refs[0], fuel) == Some(seq![added[0]]));
        lemma_walk_leaf_refs(objs, refs.drop_first(), added.drop_first(), fuel);
        assert(seq![added[0]] + added.drop_first() =~= added);
    }
}

/// The walk reads one graph exactly as another when the two agree on every
/// identifier except one that no array anywhere references.
pub proof fn lemma_walk_kids_frame(
    m1: Seq<(ObjectId, Object)>,
    m2: Seq<(ObjectId, Object)>,
    rid: ObjectId,
    kids: Seq<Object>,
    fuel: nat,
)
    requires
        forall|i: int| 0 <= i < m1.len() ==> obj_closed((#[trigger] m1[i]).1, m1),
        forall|i: int| 0 <= i < m1.len() ==> no_array_ref((#[trigger] m1[i]).1, rid),
        forall|id: ObjectId|
            id != rid && #[trigger] lookup(m1, id) is Some ==> lookup(m2, id) == lookup(m1, id),
        forall|j: int|
            0 <= j < kids.len() ==> #[trigger] kids[j] != Object::Reference(rid),
        forall|j: int|
            0 <= j < kids.len() ==> ((#[trigger] kids[j]) matches Object::Reference(id) ==> lookup(
                m1,
                id,
            ) is Some),
    ensures
        walk_kids(m2, kids, fuel) == walk_kids(m1, kids, fuel),
    decreases fuel, 1nat, kids.len(),
{
    if kids.len() > 0 {
        lemma_walk_kid_frame(m1, m2, rid, kids[0], fuel);
        lemma_walk_kids_frame(m1, m2, rid, kids.drop_first(), fuel);
    }
}

/// One-kid case of the frame argument.
pub proof fn lemma_walk_kid_frame(
    m1: Seq<(ObjectId, Object)>,
    m2: Seq<(ObjectId, Object)>,
    rid: ObjectId,
    kid: Object,
    fuel: nat,
)
    requires
        forall|i: int| 0 <= i < m1.len() ==> obj_closed((#[trigger] m1[i]).1, m1),
        forall|i: int| 0 <= i < m1.len() ==> no_array_ref((#[trigger] m1[i]).1, rid),
        forall|id: ObjectId|
            id != rid && #[trigger] lookup(m1, id) is Some ==> lookup(m2, id) == lookup(m1, id),
        kid != Object::Reference(rid),
        kid matches Object::Reference(id) ==> lookup(m1, id) is Some,
    ensures
        walk_kid(m2, kid, fuel) == walk_kid(m1, kid, fuel),
    decreases fuel, 0nat,
{
    match kid {
        Object::Reference(id) => {
            assert(id != rid);
            assert(lookup(m2, id) == lookup(m1, id));
            match lookup(m1, id) {
                Some(Object::Dictionary(d)) => {
                    let t = name_value(d@, k_type());
                    if t != Some(k_page()) && t == Some(k_pages()) && fuel > 0 {
                        match kids_of(d@) {
                            Some(kids2) => {
                                lemma_lookup_index(m1, id);
                                let oi = index_of_id(m1, id);
                                assert(m1[oi].1 == Object::Dictionary(d));
                                assert(obj_closed(m1[oi].1, m1));
                                assert(no_array_ref(m1[oi].1, rid));
                                crate::document::lemma_dict_lookup_index(d@, k_kids());
                                let ki = key_index(d@, k_kids());
                                let kv = d@[ki].1;
                                assert(kv matches Object::Array(kvec) && kvec@ == kids2);
                                assert(obj_closed(kv, m1));
                                assert(no_array_ref(kv, rid));
                                assert forall|j: int|
                                    0 <= j < kids2.len() implies #[trigger] kids2[j]
                                    != Object::Reference(rid) && (kids2[j] matches
                                Object::Reference(id2) ==> lookup(m1, id2) is Some) by {
                                    assert(obj_closed(kids2[j], m1));
                                    assert(no_array_ref(kids2[j], rid));
                                }
                                lemma_walk_kids_frame(m1, m2, rid, kids2, (fuel - 1) as nat);
                            },
                            None => {},
                        }
                    }
                },
                _ => {},
            }
        },
        _ => {},
    }
}

/// The dictionary keys that the merge touches are distinct from each other
/// and from the one it must preserve.
pub proof fn lemma_keys_distinct()
    ensures
        k_pages() != k_kids(),
        k_pages() != k_count(),
        k_page() != k_pages(),
        k_kids() != k_count(),
        k_type() != k_count(),
        k_type() != k_kids(),
{
    reveal_strlit("Pages");
    reveal_strlit("Page");
    reveal_strlit("Kids");
    reveal_strlit("Count");
    reveal_strlit("Type");
    assert(k_type().len() == 4);
    assert(k_type()[0] == 'T' as u8);
    assert(k_kids()[0] == 'K' as u8);
    assert(k_pages().len() == 5);
    assert(k_kids().len() == 4);
    assert(k_page().len() == 4);
    assert(k_count().len() == 5);
    assert(k_pages()[0] == 'P' as u8);
    assert(k_count()[0] == 'C' as u8);
}

/// Rewriting dictionary values neither moves keys nor changes which names
/// they hold: `name_value` reads the copy as it read the original.
pub proof fn lemma_rewritten_name_value(
    d1: Seq<(Vec<u8>, Object)>,
    d2: Seq<(Vec<u8>, Object)>,
    table: Seq<(ObjectId, ObjectId)>,
    key: Seq<u8>,
)
    requires
        d2.len() == d1.len(),
        forall|i: int|
            0 <= i < d1.len() ==> (#[trigger] d2[i]).0@ == d1[i].0@ && rewritten(
                d1[i].1,
                d2[i].1,
                table,
            ),
    ensures
        name_value(d2, key) == name_value(d1, key),
    decreases d1.len(),
{
    if d1.len() > 0 {
        if d1[0].0@ != key {
            lemma_rewritten_name_value(d1.drop_first(), d2.drop_first(), table, key);
        }
    }
}

/// Two dictionaries with the same keys in the same order index any key at
/// the same place.
pub proof fn lemma_key_index_same(
    a: Seq<(Vec<u8>, Object)>,
    b: Seq<(Vec<u8>, Object)>,
    key: Seq<u8>,
)
    requires
        a.len() == b.len(),
        forall|i: int| 0 <= i < a.len() ==> (#[trigger] b[i]).0@ == a[i].0@,
    ensures
        key_index(b, key) == key_index(a, key),
        dict_lookup(b, key) is Some <==> dict_lookup(a, key) is Some,
    decreases a.len(),
{
    if a.len() > 0 && a[0].0@ != key {
        lemma_key_index_same(a.drop_first(), b.drop_first(), key);
    }
}

/// In an arena with unique identifiers, the entry at any index is what its
/// identifier looks up to.
pub proof fn lemma_unique_lookup_at(objs: Seq<(ObjectId, Object)>, j: int)
    requires
        unique_ids(objs),
        0 <= j < objs.len(),
    ensures
        lookup(objs, objs[j].0) == Some(objs[j].1),
        index_of_id(objs, objs[j].0) == j,
    decreases j,
{
    if objs.len() > 0 {
        if j == 0 {
        } else {
            assert(objs[0].0 != objs[j].0);
            lemma_unique_lookup_at(objs.drop_first(), j - 1);
            assert(objs.drop_first()[j - 1] == objs[j]);
        }
    }
}

/// The base qualifies for splicing: its catalog leads to a live root pages
/// dictionary with a direct `Kids` array and a non-negative integer
/// `Count`.
pub open spec fn pages_root_ready(d: Document) -> bool {
    &&& pages_root_id(d) is Some
    &&& (lookup(d.objects@, pages_root_id(d)->Some_0) matches Some(Object::Dictionary(p))
        && kids_of(p@) is Some && (int_value(p@, k_count()) matches Some(c) && c >= 0))
}

/// The root pages node's cached leaf count, where the base is ready.
pub open spec fn root_count(d: Document) -> int {
    match pages_root_id(d) {
        Some(rid) => match lookup(d.objects@, rid) {
            Some(Object::Dictionary(p)) => match int_value(p@, k_count()) {
                Some(c) => c as int,
                None => 0,
            },
            _ => 0,
        },
        None => 0,
    }
}

/// No array anywhere among the live objects references the root pages
/// node: the root stands above the tree, never inside it.
pub open spec fn root_not_kid(d: Document) -> bool {
    pages_root_id(d) matches Some(rid) ==> forall|i: int|
        0 <= i < d.objects@.len() ==> no_array_ref((#[trigger] d.objects@[i]).1, rid)
}

/// How one source is spliced into a base: the base keeps its trailer and
/// every object except the root pages node, which gains one kid reference
/// and one count per source page; the source's objects follow, relabelled
/// consecutively above the base's old `max_id`, their internal references
/// translated through the same table.
pub open spec fn merged_into(old: Document, new: Document, src: Document) -> bool {
    let off = old.max_id as int;
    let rid = pages_root_id(old)->Some_0;
    let ri = index_of_id(old.objects@, rid);
    let n0 = old.objects@.len() as int;
    let table = spec_table(src.objects@, off);
    let added = remapped_pages(src, off);
    &&& new.trailer == old.trailer
    &&& new.max_id == off + src.objects@.len()
    &&& new.objects@.len() == n0 + src.objects@.len()
    &&& (forall|i: int| 0 <= i < n0 && i != ri ==> #[trigger] new.objects@[i] == old.objects@[i])
    &&& new.objects@[ri].0 == old.objects@[ri].0
    &&& (lookup(old.objects@, rid) matches Some(Object::Dictionary(p)) ==> (new.objects@[ri].1 matches Object::Dictionary(np)
        && root_extended(p@, np@, added)))
    &&& (forall|j: int|
        0 <= j < src.objects@.len() ==> (#[trigger] new.objects@[n0 + j]).0 == minted(off, j)
            && rewritten(src.objects@[j].1, new.objects@[n0 + j].1, table))
}

/// How the root pages dictionary grows: the first `Kids` entry gains one
/// trailing reference per added page, the first `Count` entry grows by the
/// number of added pages, and every other entry stands untouched.
pub open spec fn root_extended(
    old: Seq<(Vec<u8>, Object)>,
    new: Seq<(Vec<u8>, Object)>,
    added: Seq<ObjectId>,
) -> bool {
    let ki = key_index(old, k_kids());
    let ci = key_index(old, k_count());
    &&& new.len() == old.len()
    &&& 0 <= ki < old.len() && 0 <= ci < old.len() && ki != ci
    &&& (forall|i: int| 0 <= i < old.len() && i != ki && i != ci ==> #[trigger] new[i] == old[i])
    &&& new[ki].0 == old[ki].0
    &&& new[ci].0 == old[ci].0
    &&& (old[ki].1 matches Object::Array(ov) && new[ki].1 matches Object::Array(nv) && nv@.len()
        == ov@.len() + added.len() && (forall|j: int|
        0 <= j < ov@.len() ==> #[trigger] nv@[j] == ov@[j]) && (forall|j: int|
        0 <= j < added.len() ==> nv@[ov@.len() + j] == Object::Reference(added[j])))
    &&& (old[ci].1 matches Object::Integer(c) && new[ci].1 matches Object::Integer(c2) && c2 == c
        + added.len())
}

/// Everything splicing one source guarantees of the result: the invariants
/// hold again, nothing dangles that did not before, the root keeps its
/// place and shape, and the pages are the base's pages followed by the
/// source's, relabelled.
pub proof fn lemma_merge_into_properties(b: Document, n: Document, src: Document)
    requires
        doc_wf(b),
        doc_closed(b),
        doc_closed(src),
        pages_root_ready(b),
        root_not_kid(b),
        spec_page_seq(b) is Some,
        spec_page_seq(src) is Some,
        b.max_id + src.objects@.len() <= u32::MAX,
        root_count(b) + spec_page_seq(src)->Some_0.len() <= i64::MAX,
        merged_into(b, n, src),
    ensures
        doc_wf(n),
        doc_closed(n),
        pages_root_id(n) == pages_root_id(b),
        pages_root_ready(n),
        root_not_kid(n),
        spec_page_seq(n) == Some(
            spec_page_seq(b)->Some_0 + remapped_pages(src, b.max_id as int),
        ),
        root_count(n) == root_count(b) + spec_page_seq(src)->Some_0.len(),
{
    lemma_keys_distinct();
    let off = b.max_id as int;
    let m1 = b.objects@;
    let m2 = n.objects@;
    let n0 = m1.len() as int;
    let srclen = src.objects@.len() as int;
    let rid = pages_root_id(b)->Some_0;
    let table = spec_table(src.objects@, off);
    let added = remapped_pages(src, off);
    let ps0 = spec_page_seq(b)->Some_0;
    let psrc = spec_page_seq(src)->Some_0;
    lemma_lookup_index(m1, rid);
    let ri = index_of_id(m1, rid);
    let p = lookup(m1, rid)->Some_0->Dictionary_0;
    assert(m1[ri].1 == Object::Dictionary(p));
    let np = n.objects@[ri].1->Dictionary_0;
    assert(root_extended(p@, np@, added));
    crate::document::lemma_dict_lookup_index(p@, k_kids());
    crate::document::lemma_dict_lookup_index(p@, k_count());
    let ki = key_index(p@, k_kids());
    let ci = key_index(p@, k_count());
    let ov = p@[ki].1->Array_0;
    let nv = np@[ki].1->Array_0;
    let c = p@[ci].1->Integer_0;
    assert(added.len() == psrc.len());
    lemma_page_seq_live_src(src);

    // Well-formedness of the result.
    assert(b.max_id + src.objects@.len() <= u32::MAX);
    assert forall|j: int| 0 <= j < srclen implies (#[trigger] m2[n0 + j]).0.num == off + j
        + 1 by {
        assert(m2[n0 + j].0 == minted(off, j));
    }
    assert forall|i: int, j: int| 0 <= i < j < m2.len() implies (#[trigger] m2[i]).0 != (
    #[trigger] m2[j]).0 by {
        if i < n0 && j < n0 {
            assert(m2[i].0 == m1[i].0 && m2[j].0 == m1[j].0);
        } else if i < n0 {
            let q = j - n0;
            assert(m2[i].0 == m1[i].0);
            assert(m1[i].0.num <= b.max_id);
            assert(m2[n0 + q].0.num == off + q + 1);
        } else {
            let q = i - n0;
            let r = j - n0;
            assert(m2[n0 + q].0.num == off + q + 1);
            assert(m2[n0 + r].0.num == off + r + 1);
        }
    }
    assert forall|i: int| 0 <= i < m2.len() implies (#[trigger] m2[i]).0.num <= n.max_id by {
        if i < n0 {
            assert(m2[i].0 == m1[i].0);
        } else {
            let q = i - n0;
            assert(m2[n0 + q].0.num == off + q + 1);
        }
    }
    assert(doc_wf(n));

    // Lookup transfer facts between the two arenas.
    assert(m2.take(n0) + m2.skip(n0) =~= m2);
    assert forall|id: ObjectId| id != rid && #[trigger] lookup(m1, id) is Some implies lookup(
        m2,
        id,
    ) == lookup(m1, id) by {
        assert forall|i: int| 0 <= i < n0 implies (#[trigger] m2.take(n0)[i]).0 == m1[i].0
            && (m1[i].0 == id ==> m2.take(n0)[i].1 == m1[i].1) by {
            if i != ri {
                assert(m2[i] == m1[i]);
            }
        }
        crate::document::lemma_lookup_pointwise(m1, m2.take(n0), id);
        crate::document::lemma_lookup_concat(m2.take(n0), m2.skip(n0), id);
    }
    assert(lookup(m2, rid) == Some(n.objects@[ri].1)) by {
        lemma_unique_lookup_at(m2, ri);
        assert(m2[ri].0 == m1[ri].0);
    }
    assert forall|id: ObjectId| #[trigger] lookup(m1, id) is Some implies lookup(m2, id)
        is Some by {
        if id != rid {
            assert(lookup(m2, id) == lookup(m1, id));
        }
    }
    assert forall|j: int| 0 <= j < srclen implies lookup(m2, minted(off, j)) == Some(
        m2[n0 + j].1,
    ) by {
        lemma_unique_lookup_at(m2, n0 + j);
    }
    assert forall|id: ObjectId| #[trigger] lookup(src.objects@, id) is Some implies lookup(
        m2,
        mapped_id(table, id),
    ) is Some && mapped_id(table, id) != rid by {
        lemma_lookup_index(src.objects@, id);
        let j = index_of_id(src.objects@, id);
        lemma_table_maps(src.objects@, off, id);
        assert(mapped_id(table, id) == minted(off, j));
        assert(lookup(m2, minted(off, j)) == Some(m2[n0 + j].1));
        assert(minted(off, j).num == off + j + 1);
        assert(rid.num <= b.max_id);
    }

    // The shape of the new root dictionary.
    assert forall|i: int| 0 <= i < np@.len() implies (#[trigger] np@[i]).0@ == p@[i].0@ by {
        if i != ki && i != ci {
            assert(np@[i] == p@[i]);
        }
    }
    assert(np@[ki].0@ == k_kids() && np@[ci].0@ == k_count());
    assert forall|j: int| 0 <= j < ki implies (#[trigger] np@[j]).0@ != k_kids() by {
        assert(p@[j].0@ != k_kids());
    }
    crate::document::lemma_dict_first_at(np@, k_kids(), ki);
    assert forall|j: int| 0 <= j < ci implies (#[trigger] np@[j]).0@ != k_count() by {
        assert(p@[j].0@ != k_count());
    }
    crate::document::lemma_dict_first_at(np@, k_count(), ci);
    assert(kids_of(np@) == Some(nv@));
    assert(int_value(np@, k_count()) == Some(np@[ci].1->Integer_0));

    // The root keeps its address: trailer and catalog still name it.
    assert(pages_root_id(n) == Some(rid)) by {
        assert(n.trailer@ == b.trailer@);
        match crate::document::ref_value(b.trailer@, crate::document::k_root()) {
            Some(cid) => {
                if cid == rid {
                    crate::document::lemma_dict_lookup_pointwise(p@, np@, k_pages());
                    assert(lookup(m2, cid) == Some(Object::Dictionary(np)));
                } else {
                    assert(lookup(m1, cid) is Some);
                    assert(lookup(m2, cid) == lookup(m1, cid));
                    match lookup(m1, cid) {
                        Some(Object::Dictionary(cat)) => {
                            if cid == rid {
                            } else {
                            }
                        },
                        _ => {},
                    }
                }
            },
            None => {},
        }
    }
    assert(pages_root_ready(n));
    assert(root_count(n) == c + added.len());

    // Nothing dangles in the result.
    assert forall|i: int| 0 <= i < m2.len() implies obj_closed((#[trigger] m2[i]).1, m2) by {
        if i < n0 && i != ri {
            assert(m2[i].1 == m1[i].1);
            assert(obj_closed(m1[i].1, m1));
            lemma_closed_monotone(m1[i].1, m1, m2);
        } else if i == ri {
            assert(obj_closed(m1[ri].1, m1));
            assert forall|e: int| 0 <= e < np@.len() implies obj_closed(
                (#[trigger] np@[e]).1,
                m2,
            ) by {
                if e != ki && e != ci {
                    assert(np@[e] == p@[e]);
                    assert(obj_closed(p@[e].1, m1));
                    lemma_closed_monotone(p@[e].1, m1, m2);
                } else if e == ki {
                    assert(obj_closed(p@[ki].1, m1));
                    assert forall|j: int| 0 <= j < nv@.len() implies obj_closed(
                        #[trigger] nv@[j],
                        m2,
                    ) by {
                        if j < ov@.len() {
                            assert(nv@[j] == ov@[j]);
                            assert(obj_closed(ov@[j], m1));
                            lemma_closed_monotone(ov@[j], m1, m2);
                        } else {
                            let q = j - ov@.len();
                            assert(nv@[j] == Object::Reference(added[q]));
                            lemma_lookup_index(src.objects@, psrc[q]);
                            let idx = index_of_id(src.objects@, psrc[q]);
                            assert(added[q] == minted(off, idx));
                            assert(lookup(m2, minted(off, idx)) is Some);
                        }
                    }
                } else {
                }
            }
        } else {
            let j = i - n0;
            assert(rewritten(src.objects@[j].1, m2[n0 + j].1, table));
            assert(obj_closed(src.objects@[j].1, src.objects@));
            lemma_rewritten_closed(src.objects@[j].1, m2[n0 + j].1, table, src.objects@, m2, rid);
        }
    }
    assert forall|i: int| 0 <= i < n.trailer@.len() implies obj_closed(
        (#[trigger] n.trailer@[i]).1,
        m2,
    ) by {
        assert(n.trailer@[i] == b.trailer@[i]);
        assert(obj_closed(b.trailer@[i].1, m1));
        lemma_closed_monotone(b.trailer@[i].1, m1, m2);
    }
    assert(doc_closed(n));

    // The root is still nobody's kid.
    assert forall|i: int| 0 <= i < m2.len() implies no_array_ref((#[trigger] m2[i]).1, rid) by {
        if i < n0 && i != ri {
            assert(m2[i].1 == m1[i].1);
            assert(no_array_ref(m1[i].1, rid));
        } else if i == ri {
            assert(no_array_ref(m1[ri].1, rid));
            assert forall|e: int| 0 <= e < np@.len() implies no_array_ref(
                (#[trigger] np@[e]).1,
                rid,
            ) by {
                if e != ki && e != ci {
                    assert(np@[e] == p@[e]);
                    assert(no_array_ref(p@[e].1, rid));
                } else if e == ki {
                    assert(no_array_ref(p@[ki].1, rid));
                    assert forall|j: int| 0 <= j < nv@.len() implies #[trigger] nv@[j]
                        != Object::Reference(rid) && no_array_ref(nv@[j], rid) by {
                        if j < ov@.len() {
                            assert(nv@[j] == ov@[j]);
                        } else {
                            let q = j - ov@.len();
                            assert(nv@[j] == Object::Reference(added[q]));
                            lemma_lookup_index(src.objects@, psrc[q]);
                            let idx = index_of_id(src.objects@, psrc[q]);
                            assert(added[q] == minted(off, idx));
                            assert(added[q].num == off + idx + 1);
                            assert(rid.num <= b.max_id);
                        }
                    }
                } else {
                }
            }
        } else {
            let j = i - n0;
            lemma_rewritten_closed(src.objects@[j].1, m2[n0 + j].1, table, src.objects@, m2, rid);
        }
    }
    assert(root_not_kid(n));

    // The pages of the result: the base's pages, then the source's.
    let fn2 = crate::document::page_fuel();
    assert(kids_of(p@) == Some(ov@));
    assert(walk_kids(m1, ov@, fn2) == Some(ps0));
    assert(obj_closed(p@[ki].1, m1)) by {
        assert(obj_closed(m1[ri].1, m1));
    }
    assert(no_array_ref(p@[ki].1, rid)) by {
        assert(no_array_ref(m1[ri].1, rid));
    }
    assert forall|j: int| 0 <= j < ov@.len() implies #[trigger] ov@[j] != Object::Reference(rid)
        && (ov@[j] matches Object::Reference(id2) ==> lookup(m1, id2) is Some) by {
        assert(obj_closed(ov@[j], m1));
        assert(no_array_ref(ov@[j], rid));
    }
    lemma_walk_kids_frame(m1, m2, rid, ov@, fn2);
    assert(walk_kids(m2, ov@, fn2) == Some(ps0));
    let refs = nv@.skip(ov@.len() as int);
    assert forall|j: int| 0 <= j < refs.len() implies #[trigger] refs[j] == Object::Reference(
        added[j],
    ) by {
        assert(refs[j] == nv@[ov@.len() + j]);
    }
    assert forall|j: int| 0 <= j < added.len() implies (lookup(m2, #[trigger] added[j]) matches Some(
        Object::Dictionary(d2),
    ) && name_value(d2@, k_type()) == Some(k_page())) by {
        lemma_lookup_index(src.objects@, psrc[j]);
        let idx = index_of_id(src.objects@, psrc[j]);
        assert(added[j] == minted(off, idx));
        assert(lookup(m2, minted(off, idx)) == Some(m2[n0 + idx].1));
        let dp = lookup(src.objects@, psrc[j])->Some_0->Dictionary_0;
        assert(src.objects@[idx].1 == Object::Dictionary(dp));
        assert(rewritten(src.objects@[idx].1, m2[n0 + idx].1, table));
        let d2 = m2[n0 + idx].1->Dictionary_0;
        lemma_rewritten_name_value(dp@, d2@, table, k_type());
    }
    lemma_walk_leaf_refs(m2, refs, added, fn2);
    assert(ov@ + refs =~= nv@);
    lemma_walk_kids_concat(m2, ov@, refs, fn2);
    assert(walk_kids(m2, nv@, fn2) == Some(ps0 + added));
    assert(spec_page_seq(n) == Some(ps0 + added));
}

/// Every page the page walk yields lives in the arena as a `Page`-typed
/// dictionary; wrapper around the walk lemma for whole documents.
proof fn lemma_page_seq_live_src(d: Document)
    requires
        spec_page_seq(d) is Some,
    ensures
        forall|i: int|
            0 <= i < spec_page_seq(d)->Some_0.len() ==> (lookup(
                d.objects@,
                #[trigger] spec_page_seq(d)->Some_0[i],
            ) matches Some(Object::Dictionary(p)) && name_value(p@, k_type()) == Some(k_page())),
{
    crate::document::lemma_page_seq_live(d);
}

/// Why a single document cannot take part in a merge, if it cannot:
/// duplicate identifiers first, then dangling references, then a page tree
/// too deep to walk.
pub open spec fn doc_fail(d: Document) -> Option<PdfError> {
    if !doc_wf(d) {
        Some(PdfError::InvalidIds)
    } else if !doc_closed(d) {
        Some(PdfError::DanglingReference)
    } else if spec_page_seq(d) is None {
        Some(PdfError::MalformedPageTree)
    } else {
        None
    }
}

/// The first complaint over a list of documents, in order.
pub open spec fn docs_fail(docs: Seq<Document>) -> Option<PdfError>
    decreases docs.len(),
{
    if docs.len() == 0 {
        None
    } else if doc_fail(docs[0]) is Some {
        doc_fail(docs[0])
    } else {
        docs_fail(docs.drop_first())
    }
}

/// Combined page count of the documents in a half-open range.
pub open spec fn sum_pages_range(docs: Seq<Document>, k: int, end: int) -> int
    decreases end - k,
{
    if k >= end || k < 0 || k >= docs.len() {
        0
    } else {
        spec_page_count(docs[k]) + sum_pages_range(docs, k + 1, end)
    }
}

/// Combined arena size of all sources.
pub open spec fn sum_len(docs: Seq<Document>, k: int) -> int {
    sum_len_range(docs, k, docs.len() as int)
}

/// Combined page count of all sources.
pub open spec fn sum_pages(docs: Seq<Document>, k: int) -> int {
    sum_pages_range(docs, k, docs.len() as int)
}

/// Exactly when and why a merge request is turned down, mirroring the
/// order in which the inputs are examined.
pub open spec fn merge_decision(docs: Seq<Document>) -> Option<PdfError> {
    if docs.len() == 0 {
        Some(PdfError::NoInput)
    } else if docs.len() == 1 {
        None
    } else if docs_fail(docs) is Some {
        docs_fail(docs)
    } else if !pages_root_ready(docs[0]) {
        Some(PdfError::MissingPagesRoot)
    } else if !root_not_kid(docs[0]) {
        Some(PdfError::MalformedPageTree)
    } else if docs[0].max_id + sum_len(docs, 1) > u32::MAX || root_count(docs[0]) + sum_pages(
        docs,
        1,
    ) > i64::MAX {
        Some(PdfError::TooManyObjects)
    } else {
        None
    }
}

/// The pages contributed by the sources from position `k` on, relabelled
/// by the offsets they meet when their turn comes.
pub open spec fn pages_from(docs: Seq<Document>, k: int, off: int) -> Seq<ObjectId>
    decreases docs.len() - k,
{
    if k < 0 || k >= docs.len() {
        Seq::empty()
    } else {
        remapped_pages(docs[k], off) + pages_from(docs, k + 1, off + docs[k].objects@.len())
    }
}

/// The pages of the finished merge: the base's own, then each source's in
/// input order.
pub open spec fn all_pages(docs: Seq<Document>) -> Seq<ObjectId> {
    spec_page_seq(docs[0])->Some_0 + pages_from(docs, 1, docs[0].max_id as int)
}

/// The copies of the sources from position `k` up to `end` stand in the
/// result from index `n_before` on, relabelled and rewritten.
pub open spec fn copies_placed(
    docs: Seq<Document>,
    res: Document,
    k: int,
    end: int,
    n_before: int,
    off: int,
) -> bool
    decreases end - k,
{
    k >= end || {
        let len_k = docs[k].objects@.len() as int;
        &&& (forall|j: int|
            0 <= j < len_k ==> (#[trigger] res.objects@[n_before + j]).0 == minted(off, j)
                && rewritten(
                docs[k].objects@[j].1,
                res.objects@[n_before + j].1,
                spec_table(docs[k].objects@, off),
            ))
        &&& copies_placed(docs, res, k + 1, end, n_before + len_k, off + len_k)
    }
}

/// An arena entry preceded by no entry with the same identifier is what
/// that identifier looks up to.
pub proof fn lemma_first_id_at(objs: Seq<(ObjectId, Object)>, id: ObjectId, i: int)
    requires
        0 <= i < objs.len(),
        objs[i].0 == id,
        forall|j: int| 0 <= j < i ==> (#[trigger] objs[j]).0 != id,
    ensures
        lookup(objs, id) == Some(objs[i].1),
        index_of_id(objs, id) == i,
    decreases i,
{
    if i > 0 {
        lemma_first_id_at(objs.drop_first(), id, i - 1);
        assert(objs.drop_first()[i - 1] == objs[i]);
        assert forall|j: int| 0 <= j < i - 1 implies (#[trigger] objs.drop_first()[j]).0 != id by {
            assert(objs.drop_first()[j] == objs[j + 1]);
        }
    }
}

/// Skipping documents that raise no complaint does not change the first
/// complaint.
pub proof fn lemma_docs_fail_skip(docs: Seq<Document>, k: int)
    requires
        0 <= k <= docs.len(),
        forall|m: int| 0 <= m < k ==> doc_fail(#[trigger] docs[m]) is None,
    ensures
        docs_fail(docs) == docs_fail(docs.skip(k)),
    decreases k,
{
    if k > 0 {
        assert(doc_fail(docs[0]) is None);
        lemma_docs_fail_skip(docs.drop_first(), k - 1);
        assert forall|m: int| 0 <= m < k - 1 implies doc_fail(
            #[trigger] docs.drop_first()[m],
        ) is None by {
            assert(docs.drop_first()[m] == docs[m + 1]);
        }
        assert(docs.drop_first().skip(k - 1) =~= docs.skip(k));
    } else {
        assert(docs.skip(0) =~= docs);
    }
}

/// No complaint about the list means no complaint about any member.
pub proof fn lemma_docs_fail_none(docs: Seq<Document>)
    requires
        docs_fail(docs) is None,
    ensures
        forall|m: int| 0 <= m < docs.len() ==> doc_fail(#[trigger] docs[m]) is None,
    decreases docs.len(),
{
    if docs.len() > 0 {
        lemma_docs_fail_none(docs.drop_first());
        assert forall|m: int| 0 <= m < docs.len() implies doc_fail(#[trigger] docs[m]) is None by {
            if m > 0 {
                assert(docs.drop_first()[m - 1] == docs[m]);
            }
        }
    }
}

/// Extending a root dictionary twice extends it once by the concatenation.
pub proof fn lemma_root_extended_trans(
    p0: Seq<(Vec<u8>, Object)>,
    p1: Seq<(Vec<u8>, Object)>,
    p2: Seq<(Vec<u8>, Object)>,
    a: Seq<ObjectId>,
    b: Seq<ObjectId>,
)
    requires
        root_extended(p0, p1, a),
        root_extended(p1, p2, b),
    ensures
        root_extended(p0, p2, a + b),
{
    lemma_keys_distinct();
    let ki = key_index(p0, k_kids());
    let ci = key_index(p0, k_count());
    assert forall|i: int| 0 <= i < p0.len() implies (#[trigger] p1[i]).0@ == p0[i].0@ by {
        if i != ki && i != ci {
            assert(p1[i] == p0[i]);
        }
    }
    lemma_key_index_same(p0, p1, k_kids());
    lemma_key_index_same(p0, p1, k_count());
    let ov = p0[ki].1->Array_0;
    let mv = p1[ki].1->Array_0;
    let nv = p2[ki].1->Array_0;
    assert(nv@.len() == ov@.len() + (a + b).len());
    assert forall|j: int| 0 <= j < ov@.len() implies #[trigger] nv@[j] == ov@[j] by {
        assert(nv@[j] == mv@[j]);
    }
    assert forall|j: int| 0 <= j < (a + b).len() implies nv@[ov@.len() + j] == Object::Reference(
        (a + b)[j],
    ) by {
        if j < a.len() {
            assert(nv@[ov@.len() + j] == mv@[ov@.len() + j]);
            assert(mv@[ov@.len() + j] == Object::Reference(a[j]));
            assert((a + b)[j] == a[j]);
        } else {
            assert(nv@[mv@.len() + (j - a.len())] == Object::Reference(b[j - a.len()]));
            assert(mv@.len() + (j - a.len()) == ov@.len() + j);
            assert((a + b)[j] == b[j - a.len()]);
        }
    }
}

/// Copies already in place stay in place when later steps leave their
/// indices untouched.
pub proof fn lemma_copies_frame(
    docs: Seq<Document>,
    cur: Document,
    new: Document,
    k: int,
    end: int,
    n_before: int,
    off: int,
)
    requires
        copies_placed(docs, cur, k, end, n_before, off),
        n_before >= 0,
        0 <= k,
        end <= docs.len(),
        forall|i: int|
            n_before <= i < cur.objects@.len() ==> #[trigger] new.objects@[i] == cur.objects@[i],
        n_before + sum_len_range(docs, k, end) <= cur.objects@.len(),
    ensures
        copies_placed(docs, new, k, end, n_before, off),
    decreases end - k,
{
    if k < end {
        let len_k = docs[k].objects@.len() as int;
        assert(sum_len_range(docs, k, end) == len_k + sum_len_range(docs, k + 1, end));
        lemma_sum_len_range_nonneg(docs, k + 1, end);
        assert forall|j: int| 0 <= j < len_k implies (#[trigger] new.objects@[n_before + j]).0
            == minted(off, j) && rewritten(
            docs[k].objects@[j].1,
            new.objects@[n_before + j].1,
            spec_table(docs[k].objects@, off),
        ) by {
            assert(new.objects@[n_before + j] == cur.objects@[n_before + j]);
        }
        lemma_copies_frame(docs, cur, new, k + 1, end, n_before + len_k, off + len_k);
    }
}

/// Combined arena size of the documents in a half-open range.
pub open spec fn sum_len_range(docs: Seq<Document>, k: int, end: int) -> int
    decreases end - k,
{
    if k >= end || k < 0 || k >= docs.len() {
        0
    } else {
        docs[k].objects@.len() + sum_len_range(docs, k + 1, end)
    }
}

/// Range sums of arena sizes are never negative.
pub proof fn lemma_sum_len_range_nonneg(docs: Seq<Document>, k: int, end: int)
    ensures
        sum_len_range(docs, k, end) >= 0,
    decreases end - k,
{
    if !(k >= end || k < 0 || k >= docs.len()) {
        lemma_sum_len_range_nonneg(docs, k + 1, end);
    }
}

/// One more source placed right after the copies already in place extends
/// the placement by one.
pub proof fn lemma_copies_extend(
    docs: Seq<Document>,
    new: Document,
    k: int,
    end: int,
    n_before: int,
    off: int,
)
    requires
        0 <= k <= end,
        end < docs.len(),
        copies_placed(docs, new, k, end, n_before, off),
        forall|j: int|
            0 <= j < docs[end as int].objects@.len() ==> (#[trigger] new.objects@[n_before
                + sum_len_range(docs, k, end) + j]).0 == minted(off + sum_len_range(docs, k, end), j)
                && rewritten(
                docs[end as int].objects@[j].1,
                new.objects@[n_before + sum_len_range(docs, k, end) + j].1,
                spec_table(docs[end as int].objects@, off + sum_len_range(docs, k, end)),
            ),
    ensures
        copies_placed(docs, new, k, end + 1, n_before, off),
    decreases end - k,
{
    if k == end {
        assert(sum_len_range(docs, k, end) == 0);
        assert forall|j: int| 0 <= j < docs[k].objects@.len() implies (
        #[trigger] new.objects@[n_before + j]).0 == minted(off, j) && rewritten(
            docs[k].objects@[j].1,
            new.objects@[n_before + j].1,
            spec_table(docs[k].objects@, off),
        ) by {
            assert(n_before + sum_len_range(docs, k, end) + j == n_before + j);
            assert((new.objects@[n_before + sum_len_range(docs, k, end) + j]).0 == minted(
                off + sum_len_range(docs, k, end),
                j,
            ));
        }
        assert(copies_placed(docs, new, k + 1, end + 1, n_before + docs[k].objects@.len(), off
            + docs[k].objects@.len()));
    } else {
        let len_k = docs[k].objects@.len() as int;
        assert(sum_len_range(docs, k, end) == len_k + sum_len_range(docs, k + 1, end));
        assert forall|j: int| 0 <= j < docs[end as int].objects@.len() implies (
        #[trigger] new.objects@[(n_before + len_k) + sum_len_range(docs, k + 1, end) + j]).0
            == minted((off + len_k) + sum_len_range(docs, k + 1, end), j) && rewritten(
            docs[end as int].objects@[j].1,
            new.objects@[(n_before + len_k) + sum_len_range(docs, k + 1, end) + j].1,
            spec_table(docs[end as int].objects@, (off + len_k) + sum_len_range(docs, k + 1, end)),
        ) by {
            assert((n_before + len_k) + sum_len_range(docs, k + 1, end) + j == n_before
                + sum_len_range(docs, k, end) + j);
            assert((new.objects@[n_before + sum_len_range(docs, k, end) + j]).0 == minted(
                off + sum_len_range(docs, k, end),
                j,
            ));
        }
        lemma_copies_extend(docs, new, k + 1, end, n_before + len_k, off + len_k);
    }
}

/// Range sums of page counts are never negative.
pub proof fn lemma_sum_pages_range_nonneg(docs: Seq<Document>, k: int, end: int)
    ensures
        sum_pages_range(docs, k, end) >= 0,
    decreases end - k,
{
    if !(k >= end || k < 0 || k >= docs.len()) {
        lemma_sum_pages_range_nonneg(docs, k + 1, end);
    }
}

/// A range sum splits at any point of the range.
pub proof fn lemma_sum_ranges_split(docs: Seq<Document>, a: int, m: int, b: int)
    requires
        0 <= a <= m <= b <= docs.len(),
    ensures
        sum_len_range(docs, a, b) == sum_len_range(docs, a, m) + sum_len_range(docs, m, b),
        sum_pages_range(docs, a, b) == sum_pages_range(docs, a, m) + sum_pages_range(docs, m, b),
    decreases m - a,
{
    if a < m {
        lemma_sum_ranges_split(docs, a + 1, m, b);
    }
}

/// The concatenated pages of the sources count their pages one by one.
pub proof fn lemma_pages_from_len(docs: Seq<Document>, k: int, off: int)
    requires
        forall|m: int| 0 <= m < docs.len() ==> doc_fail(#[trigger] docs[m]) is None,
        0 <= k,
    ensures
        pages_from(docs, k, off).len() == sum_pages_range(docs, k, docs.len() as int),
    decreases docs.len() - k,
{
    if !(k < 0 || k >= docs.len()) {
        assert(spec_page_seq(docs[k]) is Some);
        assert(remapped_pages(docs[k], off).len() == spec_page_count(docs[k]));
        lemma_pages_from_len(docs, k + 1, off + docs[k].objects@.len());
    }
}

/// What a finished merge of two or more documents guarantees: the result
/// keeps the base's trailer and every base object but the root pages node,
/// which is extended by exactly the sources' relabelled pages; the sources'
/// objects follow, relabelled and rewritten; identifiers stay unique, no
/// new reference dangles, and the pages are the concatenation of every
/// input's pages in input order.
pub open spec fn merged_result(docs: Seq<Document>, res: Document) -> bool {
    let n0 = docs[0].objects@.len() as int;
    let off0 = docs[0].max_id as int;
    let rid = pages_root_id(docs[0])->Some_0;
    let ri = index_of_id(docs[0].objects@, rid);
    let n = docs.len() as int;
    &&& res.trailer == docs[0].trailer
    &&& res.max_id == off0 + sum_len(docs, 1)
    &&& res.objects@.len() == n0 + sum_len(docs, 1)
    &&& doc_wf(res)
    &&& doc_closed(res)
    &&& spec_page_seq(res) == Some(all_pages(docs))
    &&& spec_page_count(res) == spec_page_count(docs[0]) + sum_pages(docs, 1)
    &&& (forall|i: int| 0 <= i < n0 && i != ri ==> #[trigger] res.objects@[i] == docs[0].objects@[i])
    &&& res.objects@[ri].0 == rid
    &&& (lookup(docs[0].objects@, rid) matches Some(Object::Dictionary(p)) ==> (
    res.objects@[ri].1 matches Object::Dictionary(np) && root_extended(
        p@,
        np@,
        pages_from(docs, 1, off0),
    )))
    &&& copies_placed(docs, res, 1, n, n0, off0)
    &&& root_count(res) == root_count(docs[0]) + sum_pages(docs, 1)
}

/// Splices one source document into the base: copies every source object
/// under a freshly minted identifier, rewrites the copies' internal
/// references, and appends each source page to the base's root pages node,
/// keeping its `Count` true to the addition.
fn merge_into(base: &mut Document, src: &Document)
    requires
        doc_wf(*old(base)),
        doc_closed(*old(base)),
        doc_closed(*src),
        pages_root_ready(*old(base)),
        root_not_kid(*old(base)),
        spec_page_seq(*old(base)) is Some,
        spec_page_seq(*src) is Some,
        old(base).max_id + src.objects@.len() <= u32::MAX,
        root_count(*old(base)) + spec_page_seq(*src)->Some_0.len() <= i64::MAX,
    ensures
        merged_into(*old(base), *final(base), *src),
        doc_wf(*final(base)),
        doc_closed(*final(base)),
        pages_root_id(*final(base)) == pages_root_id(*old(base)),
        pages_root_ready(*final(base)),
        root_not_kid(*final(base)),
        spec_page_seq(*final(base)) == Some(
            spec_page_seq(*old(base))->Some_0 + remapped_pages(*src, old(base).max_id as int),
        ),
        root_count(*final(base)) == root_count(*old(base)) + spec_page_seq(*src)->Some_0.len(),
{
    let ghost b0 = *old(base);
    let off = base.max_id;
    let srclen = src.objects.len();
    let ghost n0 = b0.objects@.len() as int;

    // The translation table: source identifiers to freshly minted ones.
    let mut table: Vec<(ObjectId, ObjectId)> = Vec::new();
    let mut j: usize = 0;
    while j < srclen
        invariant
            0 <= j <= srclen,
            srclen == src.objects@.len(),
            off + srclen <= u32::MAX,
            table@.len() == j,
            forall|m: int|
                0 <= m < j ==> #[trigger] table@[m] == (src.objects@[m].0, minted(off as int, m)),
        decreases srclen - j,
    {
        let nid = ObjectId { num: off + 1 + (j as u32), gen: 0 };
        proof {
            assert(nid == minted(off as int, j as int));
        }
        table.push((src.objects[j].0, nid));
        j = j + 1;
    }
    proof {
        assert(table@ =~= spec_table(src.objects@, off as int));
    }

    // The source's pages, in document order.
    let pages = match crate::document::page_ids(src) {
        Ok(v) => v,
        Err(_) => vstd::pervasive::unreached(),
    };
    let ghost psrc = spec_page_seq(*src)->Some_0;
    proof {
        assert(pages@ == psrc);
        crate::document::lemma_page_seq_live(*src);
    }

    // Locate the root pages node.
    let rkey = crate::document::key_root();
    let pkey = crate::document::key_pages();
    let rid = {
        let cid = match crate::document::dict_get(&base.trailer, &rkey) {
            Some(Object::Reference(cid)) => *cid,
            _ => vstd::pervasive::unreached(),
        };
        let cat = match crate::document::get_object(&base.objects, cid) {
            Some(Object::Dictionary(c)) => c,
            _ => vstd::pervasive::unreached(),
        };
        match crate::document::dict_get(cat, &pkey) {
            Some(Object::Reference(r)) => *r,
            _ => vstd::pervasive::unreached(),
        }
    };
    proof {
        assert(Some(rid) == pages_root_id(b0));
        lemma_lookup_index(b0.objects@, rid);
    }
    let ri = match crate::document::find_index(&base.objects, rid) {
        Some(i) => i,
        None => vstd::pervasive::unreached(),
    };
    proof {
        assert(ri as int == index_of_id(b0.objects@, rid));
    }
    let ghost p = lookup(b0.objects@, rid)->Some_0->Dictionary_0;

    // Take the root entry out and extend its Kids and Count.
    let (eid, eobj) = base.objects.remove(ri);
    let mut entries = match eobj {
        Object::Dictionary(e) => e,
        _ => vstd::pervasive::unreached(),
    };
    proof {
        assert(entries@ == p@);
    }
    let kkey = crate::document::key_kids();
    let ki = match crate::document::find_key(&entries, &kkey) {
        Some(i) => i,
        None => vstd::pervasive::unreached(),
    };
    proof {
        crate::document::lemma_dict_lookup_index(p@, k_kids());
        assert(ki as int == key_index(p@, k_kids()));
    }
    let (kk, kv) = entries.remove(ki);
    let mut kvec = match kv {
        Object::Array(v) => v,
        _ => vstd::pervasive::unreached(),
    };
    let ghost ovg = kvec@;
    let mut i2: usize = 0;
    while i2 < pages.len()
        invariant
            0 <= i2 <= pages@.len(),
            table@ == spec_table(src.objects@, off as int),
            kvec@.len() == ovg.len() + i2,
            forall|m: int| 0 <= m < ovg.len() ==> #[trigger] kvec@[m] == ovg[m],
            forall|m: int|
                0 <= m < i2 ==> #[trigger] kvec@[ovg.len() + m] == Object::Reference(
                    mapped_id(table@, pages@[m]),
                ),
        decreases pages@.len() - i2,
    {
        let np = crate::objects::apply_remap(&table, pages[i2]);
        kvec.push(Object::Reference(np));
        i2 = i2 + 1;
    }
    let ghost added = remapped_pages(*src, off as int);
    proof {
        assert(added.len() == psrc.len());
        assert forall|m: int| 0 <= m < psrc.len() implies kvec@[ovg.len() + m]
            == Object::Reference(added[m]) by {
            lemma_table_maps(src.objects@, off as int, psrc[m]);
            assert(added[m] == minted(off as int, index_of_id(src.objects@, psrc[m])));
        }
    }
    entries.insert(ki, (kk, Object::Array(kvec)));
    let ghost e2 = entries@;
    proof {
        assert(e2 =~= p@.update(ki as int, (p@[ki as int].0, e2[ki as int].1)));
        assert forall|i: int| 0 <= i < p@.len() implies (#[trigger] e2[i]).0@ == p@[i].0@ by {}
        lemma_keys_distinct();
        lemma_key_index_same(p@, e2, k_count());
        crate::document::lemma_dict_lookup_index(p@, k_count());
    }
    let ckey = crate::document::key_count();
    let ci = match crate::document::find_key(&entries, &ckey) {
        Some(i) => i,
        None => vstd::pervasive::unreached(),
    };
    proof {
        assert(ci as int == key_index(p@, k_count()));
        assert(ci != ki);
        assert(e2[ci as int] == p@[ci as int]);
    }
    let (ck, cv) = entries.remove(ci);
    let c = match cv {
        Object::Integer(c) => c,
        _ => vstd::pervasive::unreached(),
    };
    proof {
        assert(c == root_count(b0));
        assert(psrc.len() <= i64::MAX);
    }
    let pcount = pages.len();
    let c2 = c + (pcount as i64);
    entries.insert(ci, (ck, Object::Integer(c2)));
    let ghost e4 = entries@;
    proof {
        assert(e4 =~= e2.update(ci as int, (p@[ci as int].0, Object::Integer(c2))));
    }
    base.objects.insert(ri, (eid, Object::Dictionary(entries)));
    let ghost ar = base.objects@;
    proof {
        assert(ar =~= b0.objects@.update(ri as int, (rid, Object::Dictionary(entries))));
    }

    // Append the source's objects under their minted identifiers.
    let mut j2: usize = 0;
    while j2 < srclen
        invariant
            0 <= j2 <= srclen,
            srclen == src.objects@.len(),
            off + srclen <= u32::MAX,
            table@ == spec_table(src.objects@, off as int),
            n0 == ar.len(),
            base.trailer == b0.trailer,
            base.objects@.len() == n0 + j2,
            forall|i: int| 0 <= i < n0 ==> #[trigger] base.objects@[i] == ar[i],
            forall|m: int|
                0 <= m < j2 ==> (#[trigger] base.objects@[n0 + m]).0 == minted(off as int, m)
                    && rewritten(src.objects@[m].1, base.objects@[n0 + m].1, table@),
        decreases srclen - j2,
    {
        let nid = ObjectId { num: off + 1 + (j2 as u32), gen: 0 };
        proof {
            assert(nid == minted(off as int, j2 as int));
        }
        let v = crate::objects::rewrite_refs(&src.objects[j2].1, &table);
        base.objects.push((nid, v));
        j2 = j2 + 1;
    }
    base.max_id = off + (srclen as u32);

    proof {
        let bn = *base;
        assert(bn.objects@[ri as int].1 == Object::Dictionary(entries));
        assert(root_extended(p@, e4, added)) by {
            assert(p@[ki as int].1 matches Object::Array(ov) && ov@ == ovg);
            assert(e4[ki as int] == (p@[ki as int].0, e2[ki as int].1));
            assert(e2[ki as int].1 matches Object::Array(nv) && nv@.len() == ovg.len()
                + added.len());
            assert(p@[ci as int].1 matches Object::Integer(cc) && cc == c);
            assert forall|i: int|
                0 <= i < p@.len() && i != ki as int && i != ci as int implies #[trigger] e4[i]
                == p@[i] by {}
        }
        assert(merged_into(b0, bn, *src));
        lemma_merge_into_properties(b0, bn, *src);
    }
}

/// Merges the given documents into one, in order: the first is the base,
/// every later one contributes its objects under fresh identifiers and its
/// pages at the end of the base's page list.  A single document is handed
/// back unchanged.  Inputs are examined before anything is touched;
/// `merge_decision` says exactly which error comes back and when.
pub fn merge_pdfs(docs: Vec<Document>) -> (r: Result<Document, PdfError>)
    ensures
        r is Err <==> merge_decision(docs@) is Some,
        r is Err ==> r == Err::<Document, PdfError>(merge_decision(docs@)->Some_0),
        docs@.len() == 1 ==> r == Ok::<Document, PdfError>(docs@[0]),
        merge_decision(docs@) is None && docs@.len() >= 2 ==> (r matches Ok(res) && merged_result(
            docs@,
            res,
        )),
{
    let ghost docs0 = docs@;
    let n = docs.len();
    if n == 0 {
        return Err(PdfError::NoInput);
    }
    let mut v = docs;
    if n == 1 {
        let base = v.remove(0);
        return Ok(base);
    }

    // Examine every input in order before touching anything.
    let mut total_objs: u128 = 0;
    let mut obj_over: bool = false;
    let mut total_pages: u128 = 0;
    let mut page_over: bool = false;
    let mut k: usize = 0;
    while k < n
        invariant
            0 <= k <= n,
            n == v@.len(),
            v@ == docs0,
            docs0 == docs@,
            n >= 2,
            forall|m: int| 0 <= m < k ==> doc_fail(#[trigger] docs0[m]) is None,
            !obj_over ==> total_objs == sum_len_range(docs0, 1, k as int) && total_objs
                <= u32::MAX,
            obj_over ==> sum_len_range(docs0, 1, k as int) > u32::MAX,
            !page_over ==> total_pages == sum_pages_range(docs0, 1, k as int) && total_pages
                <= i64::MAX,
            page_over ==> sum_pages_range(docs0, 1, k as int) > i64::MAX,
        decreases n - k,
    {
        if !crate::document::check_wf(&v[k]) {
            proof {
                lemma_docs_fail_skip(docs0, k as int);
                assert(docs0.skip(k as int)[0] == docs0[k as int]);
                assert(merge_decision(docs0) == Some(PdfError::InvalidIds));
            }
            return Err(PdfError::InvalidIds);
        }
        if !crate::document::check_closed(&v[k]) {
            proof {
                lemma_docs_fail_skip(docs0, k as int);
                assert(docs0.skip(k as int)[0] == docs0[k as int]);
                assert(merge_decision(docs0) == Some(PdfError::DanglingReference));
            }
            return Err(PdfError::DanglingReference);
        }
        let pages_k = match crate::document::page_ids(&v[k]) {
            Ok(p) => p,
            Err(_) => {
                proof {
                    lemma_docs_fail_skip(docs0, k as int);
                    assert(docs0.skip(k as int)[0] == docs0[k as int]);
                    assert(merge_decision(docs0) == Some(PdfError::MalformedPageTree));
                }
                return Err(PdfError::MalformedPageTree);
            },
        };
        if k >= 1 {
            proof {
                assert(sum_len_range(docs0, 1, k as int + 1) == sum_len_range(docs0, 1, k as int)
                    + docs0[k as int].objects@.len()) by {
                    lemma_sum_ranges_split(docs0, 1, k as int, k as int + 1);
                    assert(sum_len_range(docs0, k as int + 1, k as int + 1) == 0);
                    assert(sum_len_range(docs0, k as int, k as int + 1)
                        == docs0[k as int].objects@.len());
                }
                assert(sum_pages_range(docs0, 1, k as int + 1) == sum_pages_range(
                    docs0,
                    1,
                    k as int,
                ) + spec_page_count(docs0[k as int])) by {
                    lemma_sum_ranges_split(docs0, 1, k as int, k as int + 1);
                    assert(sum_pages_range(docs0, k as int + 1, k as int + 1) == 0);
                    assert(sum_pages_range(docs0, k as int, k as int + 1) == spec_page_count(
                        docs0[k as int],
                    ));
                }
            }
            if !obj_over {
                let add = v[k].objects.len() as u128;
                if total_objs + add > u32::MAX as u128 {
                    obj_over = true;
                } else {
                    total_objs = total_objs + add;
                }
            } else {
                proof {
                    lemma_sum_len_range_nonneg(docs0, k as int, k as int + 1);
                }
            }
            if !page_over {
                let padd = pages_k.len() as u128;
                if total_pages + padd > i64::MAX as u128 {
                    page_over = true;
                } else {
                    total_pages = total_pages + padd;
                }
            } else {
                proof {
                    lemma_sum_pages_range_nonneg(docs0, k as int, k as int + 1);
                }
            }
        } else {
            proof {
                assert(sum_len_range(docs0, 1, 1) == 0);
                assert(sum_pages_range(docs0, 1, 1) == 0);
            }
        }
        k = k + 1;
    }
    proof {
        assert(docs_fail(docs0) is None) by {
            lemma_docs_fail_skip(docs0, n as int);
            assert(docs0.skip(n as int).len() == 0);
        }
        lemma_docs_fail_none(docs0);
    }

    // The base must offer a well-shaped root pages node.
    let rkey = crate::document::key_root();
    let pkey = crate::document::key_pages();
    let kkey = crate::document::key_kids();
    let ckey = crate::document::key_count();
    let rid = {
        let cid = match crate::document::dict_get(&v[0].trailer, &rkey) {
            Some(Object::Reference(cid)) => *cid,
            _ => {
                return Err(PdfError::MissingPagesRoot);
            },
        };
        let cat = match crate::document::get_object(&v[0].objects, cid) {
            Some(Object::Dictionary(c)) => c,
            _ => {
                return Err(PdfError::MissingPagesRoot);
            },
        };
        match crate::document::dict_get(cat, &pkey) {
            Some(Object::Reference(r)) => *r,
            _ => {
                return Err(PdfError::MissingPagesRoot);
            },
        }
    };
    let c0 = {
        let p = match crate::document::get_object(&v[0].objects, rid) {
            Some(Object::Dictionary(p)) => p,
            _ => {
                return Err(PdfError::MissingPagesRoot);
            },
        };
        match crate::document::dict_get(p, &kkey) {
            Some(Object::Array(_)) => {},
            _ => {
                return Err(PdfError::MissingPagesRoot);
            },
        };
        match crate::document::dict_get(p, &ckey) {
            Some(Object::Integer(c)) => {
                if *c < 0 {
                    return Err(PdfError::MissingPagesRoot);
                }
                *c
            },
            _ => {
                return Err(PdfError::MissingPagesRoot);
            },
        }
    };
    proof {
        assert(Some(rid) == pages_root_id(docs0[0]));
        assert(pages_root_ready(docs0[0]));
        assert(c0 == root_count(docs0[0]));
    }

    // The root pages node must not stand anywhere inside the tree itself.
    let mut k2: usize = 0;
    while k2 < v[0].objects.len()
        invariant
            v@ == docs0,
            docs0 == docs@,
            n == docs0.len(),
            n >= 2,
            docs_fail(docs0) is None,
            pages_root_ready(docs0[0]),
            Some(rid) == pages_root_id(docs0[0]),
            0 <= k2 <= docs0[0].objects@.len(),
            forall|i: int|
                0 <= i < k2 ==> no_array_ref((#[trigger] docs0[0].objects@[i]).1, rid),
        decreases docs0[0].objects@.len() - k2,
    {
        if !crate::document::check_no_array_ref(&v[0].objects[k2].1, rid) {
            proof {
                assert(Some(rid) == pages_root_id(docs0[0]));
                assert(!root_not_kid(docs0[0]));
                assert(merge_decision(docs0) == Some(PdfError::MalformedPageTree));
            }
            return Err(PdfError::MalformedPageTree);
        }
        k2 = k2 + 1;
    }
    proof {
        assert(root_not_kid(docs0[0]));
    }

    // Fresh identifiers and the root count must have room.
    if obj_over || (v[0].max_id as u128) + total_objs > u32::MAX as u128 || page_over || (
    c0 as u128) + total_pages > i64::MAX as u128 {
        proof {
            assert(merge_decision(docs0) == Some(PdfError::TooManyObjects));
        }
        return Err(PdfError::TooManyObjects);
    }
    proof {
        assert(merge_decision(docs0) is None);
    }

    // Fold the sources into the base, in order.
    let mut base = v.remove(0);
    let ghost b00 = docs0[0];
    let ghost n0 = b00.objects@.len() as int;
    let ghost off0 = b00.max_id as int;
    let ghost ps0 = spec_page_seq(b00)->Some_0;
    let ghost ri0 = index_of_id(b00.objects@, rid);
    proof {
        lemma_lookup_index(b00.objects@, rid);
    }
    let ghost p0 = lookup(b00.objects@, rid)->Some_0->Dictionary_0;
    proof {
        assert(0 <= ri0 < n0);
        assert(docs0[0].objects@[ri0].1 == Object::Dictionary(p0));
        crate::document::lemma_dict_lookup_index(p0@, k_kids());
        crate::document::lemma_dict_lookup_index(p0@, k_count());
        lemma_keys_distinct();
        assert(root_extended(p0@, p0@, Seq::empty()));
        assert(ps0.take(ps0.len() as int) =~= ps0);
        assert(spec_page_seq(base)->Some_0.skip(ps0.len() as int) =~= Seq::empty());
        assert(ps0 + Seq::<ObjectId>::empty() =~= ps0);
        assert(copies_placed(docs0, base, 1, 1, n0, off0));
        assert(sum_len_range(docs0, 1, 1) == 0 && sum_pages_range(docs0, 1, 1) == 0);
    }
    let mut k3: usize = 1;
    while k3 < n
        invariant
            1 <= k3 <= n,
            n == docs0.len(),
            docs0 == docs@,
            n >= 2,
            v@ == docs0.drop_first(),
            0 <= ri0 < n0,
            docs0[0].objects@[ri0].1 == Object::Dictionary(p0),
            forall|m: int| 0 <= m < n ==> doc_fail(#[trigger] docs0[m]) is None,
            pages_root_ready(docs0[0]),
            root_not_kid(docs0[0]),
            rid == pages_root_id(docs0[0])->Some_0,
            ri0 == index_of_id(docs0[0].objects@, rid),
            p0 == lookup(docs0[0].objects@, rid)->Some_0->Dictionary_0,
            n0 == docs0[0].objects@.len() as int,
            off0 == docs0[0].max_id as int,
            ps0 == spec_page_seq(docs0[0])->Some_0,
            c0 == root_count(docs0[0]),
            off0 + sum_len_range(docs0, 1, n as int) <= u32::MAX,
            c0 + sum_pages_range(docs0, 1, n as int) <= i64::MAX,
            doc_wf(base),
            doc_closed(base),
            pages_root_ready(base),
            root_not_kid(base),
            spec_page_seq(base) is Some,
            pages_root_id(base) == Some(rid),
            base.trailer == docs0[0].trailer,
            base.max_id as int == off0 + sum_len_range(docs0, 1, k3 as int),
            base.objects@.len() == n0 + sum_len_range(docs0, 1, k3 as int),
            root_count(base) == c0 + sum_pages_range(docs0, 1, k3 as int),
            forall|i: int|
                0 <= i < n0 && i != ri0 ==> #[trigger] base.objects@[i] == docs0[0].objects@[i],
            base.objects@[ri0].0 == rid,
            (base.objects@[ri0].1 matches Object::Dictionary(np) && root_extended(
                p0@,
                np@,
                spec_page_seq(base)->Some_0.skip(ps0.len() as int),
            )),
            ps0.len() <= spec_page_seq(base)->Some_0.len(),
            spec_page_seq(base)->Some_0.take(ps0.len() as int) == ps0,
            spec_page_seq(base)->Some_0 + pages_from(docs0, k3 as int, base.max_id as int)
                == all_pages(docs0),
            copies_placed(docs0, base, 1, k3 as int, n0, off0),
        decreases n - k3,
    {
        let ghost cur = base;
        proof {
            lemma_sum_len_range_nonneg(docs0, 1, k3 as int);
            lemma_sum_ranges_split(docs0, 1, k3 as int, n as int);
            lemma_sum_ranges_split(docs0, k3 as int, k3 as int + 1, n as int);
            lemma_sum_len_range_nonneg(docs0, k3 as int + 1, n as int);
            lemma_sum_pages_range_nonneg(docs0, k3 as int + 1, n as int);
            assert(sum_len_range(docs0, k3 as int + 1, k3 as int + 1) == 0);
            assert(sum_pages_range(docs0, k3 as int + 1, k3 as int + 1) == 0);
            lemma_sum_ranges_split(docs0, 1, k3 as int, k3 as int + 1);
            assert(sum_len_range(docs0, k3 as int, k3 as int + 1)
                == docs0[k3 as int].objects@.len());
            assert(sum_pages_range(docs0, k3 as int, k3 as int + 1) == spec_page_count(
                docs0[k3 as int],
            ));
            assert(docs0.drop_first()[k3 - 1] == docs0[k3 as int]);
            assert(doc_fail(docs0[k3 as int]) is None);
            lemma_lookup_index(docs0[0].objects@, rid);
            assert forall|j: int| 0 <= j < ri0 implies (#[trigger] cur.objects@[j]).0 != rid by {
                assert(cur.objects@[j] == docs0[0].objects@[j]);
            }
            lemma_first_id_at(cur.objects@, rid, ri0);
        }
        merge_into(&mut base, &v[k3 - 1]);
        proof {
            let src = docs0[k3 as int];
            let added = remapped_pages(src, cur.max_id as int);
            let cur_ps = spec_page_seq(cur)->Some_0;
            let new_ps = spec_page_seq(base)->Some_0;
            assert(new_ps == cur_ps + added);
            assert(ps0.len() <= cur_ps.len());
            assert(new_ps.take(ps0.len() as int) =~= cur_ps.take(ps0.len() as int));
            assert(new_ps.skip(ps0.len() as int) =~= cur_ps.skip(ps0.len() as int) + added);
            // The root dictionary accumulates the new pages.
            let np_cur = cur.objects@[ri0].1->Dictionary_0;
            assert(lookup(cur.objects@, rid) == Some(cur.objects@[ri0].1));
            let np_new = base.objects@[ri0].1->Dictionary_0;
            assert(index_of_id(cur.objects@, rid) == ri0);
            assert(root_extended(np_cur@, np_new@, added));
            lemma_root_extended_trans(
                p0@,
                np_cur@,
                np_new@,
                cur_ps.skip(ps0.len() as int),
                added,
            );
            // The page lists line up.
            assert(pages_from(docs0, k3 as int, cur.max_id as int) == added + pages_from(
                docs0,
                k3 as int + 1,
                cur.max_id as int + src.objects@.len(),
            ));
            assert(new_ps + pages_from(docs0, k3 as int + 1, base.max_id as int) == all_pages(
                docs0,
            )) by {
                assert(cur_ps + (added + pages_from(docs0, k3 as int + 1, base.max_id as int))
                    =~= (cur_ps + added) + pages_from(docs0, k3 as int + 1, base.max_id as int));
            }
            // The copies stay and grow by one source.
            lemma_sum_len_range_nonneg(docs0, 1, k3 as int);
            lemma_copies_frame(docs0, cur, base, 1, k3 as int, n0, off0);
            assert forall|j: int| 0 <= j < src.objects@.len() implies (
            #[trigger] base.objects@[n0 + sum_len_range(docs0, 1, k3 as int) + j]).0 == minted(
                off0 + sum_len_range(docs0, 1, k3 as int),
                j,
            ) && rewritten(
                src.objects@[j].1,
                base.objects@[n0 + sum_len_range(docs0, 1, k3 as int) + j].1,
                spec_table(src.objects@, off0 + sum_len_range(docs0, 1, k3 as int)),
            ) by {
                assert(n0 + sum_len_range(docs0, 1, k3 as int) + j == cur.objects@.len() + j);
                assert(off0 + sum_len_range(docs0, 1, k3 as int) == cur.max_id as int);
                assert((base.objects@[cur.objects@.len() as int + j]).0 == minted(
                    cur.max_id as int,
                    j,
                ));
            }
            lemma_copies_extend(docs0, base, 1, k3 as int, n0, off0);
        }
        k3 = k3 + 1;
    }
    proof {
        assert(pages_from(docs0, n as int, base.max_id as int) =~= Seq::<ObjectId>::empty());
        assert(spec_page_seq(base)->Some_0 + Seq::<ObjectId>::empty() =~= spec_page_seq(
            base,
        )->Some_0);
        assert(spec_page_seq(base)->Some_0 == all_pages(docs0));
        assert(spec_page_seq(base) == Some(all_pages(docs0)));
        lemma_pages_from_len(docs0, 1, off0);
        assert(all_pages(docs0).len() == ps0.len() + sum_pages_range(docs0, 1, n as int));
        assert(all_pages(docs0).skip(ps0.len() as int) =~= pages_from(docs0, 1, off0));
        assert(merged_result(docs0, base));
    }
    Ok(base)
}

} // verus!

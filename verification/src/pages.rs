use vstd::prelude::*;

verus! {

use vstd::seq_lib::*;
use crate::objects::ObjectId;
use crate::objects::Object;
use crate::objects::clone_bytes;
use crate::document::Document;
use crate::document::PdfError;
use crate::document::lookup;
use crate::document::dict_lookup;
use crate::document::index_of_id;
use crate::document::doc_wf;
use crate::document::name_value;
use crate::document::kids_of;
use crate::document::walk_kid;
use crate::document::walk_kids;
use crate::document::spec_page_seq;
use crate::document::spec_page_count;
use crate::document::page_fuel;
use crate::document::pages_root_id;
use crate::document::k_type;
use crate::document::k_page;
use crate::document::k_pages;
use crate::document::k_kids;
use crate::document::k_count;
use crate::document::k_parent;
use crate::document::lemma_lookup_index;
use crate::document::catalog_of;

/// A page sequence with every occurrence of one page taken out.
pub open spec fn drop_page(s: Seq<ObjectId>, pid: ObjectId) -> Seq<ObjectId>
    decreases s.len(),
{
    if s.len() == 0 {
        Seq::empty()
    } else if s[0] == pid {
        drop_page(s.drop_first(), pid)
    } else {
        seq![s[0]] + drop_page(s.drop_first(), pid)
    }
}

/// Dropping a page distributes over concatenation.
pub proof fn lemma_drop_page_concat(a: Seq<ObjectId>, b: Seq<ObjectId>, pid: ObjectId)
    ensures
        drop_page(a + b, pid) == drop_page(a, pid) + drop_page(b, pid),
    decreases a.len(),
{
    if a.len() == 0 {
        assert(a + b =~= b);
        assert(Seq::<ObjectId>::empty() + drop_page(b, pid) =~= drop_page(b, pid));
    } else {
        assert((a + b)[0] == a[0]);
        assert((a + b).drop_first() =~= a.drop_first() + b);
        lemma_drop_page_concat(a.drop_first(), b, pid);
        if a[0] != pid {
            assert(seq![a[0]] + (drop_page(a.drop_first(), pid) + drop_page(b, pid)) =~= (seq![
                a[0],
            ] + drop_page(a.drop_first(), pid)) + drop_page(b, pid));
        }
    }
}

/// How a dictionary value reacts to detaching `pid`: a direct reference to
/// the deleted page becomes `Null`, anything else is purged recursively.
pub open spec fn purged_value(v1: Object, v2: Object, pid: ObjectId) -> bool
    decreases v1, 1nat,
{
    if v1 == Object::Reference(pid) {
        v2 == Object::Null
    } else {
        purged(v1, v2, pid)
    }
}

/// Relates an object to its copy with the deleted page detached: array
/// elements referencing `pid` are dropped, dictionary values referencing
/// `pid` are nulled, and everything else is kept, byte for byte.
pub open spec fn purged(old: Object, new: Object, pid: ObjectId) -> bool
    decreases old, 0nat,
{
    match old {
        Object::Null => new == Object::Null,
        Object::Boolean(b) => new == Object::Boolean(b),
        Object::Integer(n) => new == Object::Integer(n),
        Object::Real(x) => new == Object::Real(x),
        Object::Str(b, f) => new matches Object::Str(b2, f2) && b2@ == b@ && f2 == f,
        Object::Name(b) => new matches Object::Name(b2) && b2@ == b@,
        Object::Array(v) => new matches Object::Array(w) && purged_arr(v@, w@, pid),
        Object::Dictionary(d) => new matches Object::Dictionary(e) && e@.len() == d@.len()
            && (forall|i: int|
            0 <= i < d@.len() ==> (#[trigger] e@[i]).0@ == d@[i].0@ && purged_value(
                d@[i].1,
                e@[i].1,
                pid,
            )),
        Object::Stream(d, c) => new matches Object::Stream(e, c2) && c2@ == c@ && e@.len()
            == d@.len() && (forall|i: int|
            0 <= i < d@.len() ==> (#[trigger] e@[i]).0@ == d@[i].0@ && purged_value(
                d@[i].1,
                e@[i].1,
                pid,
            )),
        Object::Reference(id) => new == Object::Reference(id),
    }
}

/// Relates an array to its copy with references to the deleted page
/// dropped, the surviving elements purged in order.
pub open spec fn purged_arr(v: Seq<Object>, w: Seq<Object>, pid: ObjectId) -> bool
    decreases v, 0nat,
{
    if v.len() == 0 {
        w.len() == 0
    } else if v[0] == Object::Reference(pid) {
        purged_arr(v.drop_first(), w, pid)
    } else {
        w.len() > 0 && purged(v[0], w[0], pid) && purged_arr(v.drop_first(), w.drop_first(), pid)
    }
}

/// Returns a copy of `o` with the deleted page detached everywhere.
pub fn purge_obj(o: &Object, pid: ObjectId) -> (r: Object)
    ensures
        purged(*o, r, pid),
    decreases *o,
{
    match o {
        Object::Null => Object::Null,
        Object::Boolean(b) => Object::Boolean(*b),
        Object::Integer(n) => Object::Integer(*n),
        Object::Real(x) => Object::Real(*x),
        Object::Str(b, f) => Object::Str(clone_bytes(b), *f),
        Object::Name(b) => Object::Name(clone_bytes(b)),
        Object::Array(v) => {
            proof {
                assert(*o == Object::Array(*v));
                assert(decreases_to!(Object::Array(*v) => *v));
            }
            Object::Array(purge_arr(v, pid))
        },
        Object::Dictionary(d) => {
            proof {
                assert(*o == Object::Dictionary(*d));
                assert(decreases_to!(Object::Dictionary(*d) => *d));
            }
            Object::Dictionary(purge_dict(d, pid))
        },
        Object::Stream(d, c) => {
            proof {
                assert(*o == Object::Stream(*d, *c));
                assert(decreases_to!(Object::Stream(*d, *c) => *d));
            }
            Object::Stream(purge_dict(d, pid), clone_bytes(c))
        },
        Object::Reference(id) => Object::Reference(*id),
    }
}

/// Drops array elements referencing the deleted page and purges the rest.
fn purge_arr(v: &Vec<Object>, pid: ObjectId) -> (w: Vec<Object>)
    ensures
        purged_arr(v@, w@, pid),
    decreases *v,
{
    let mut w: Vec<Object> = Vec::new();
    let mut i: usize = 0;
    proof {
        assert(v@.skip(0) =~= v@);
    }
    while i < v.len()
        invariant
            0 <= i <= v@.len(),
            forall|w2: Seq<Object>|
                purged_arr(v@.skip(i as int), w2, pid) ==> purged_arr(v@, w@ + w2, pid),
        decreases v@.len() - i,
    {
        proof {
            assert(decreases_to!(*v => v[i as int]));
            assert(v@.skip(i as int)[0] == v@[i as int]);
            assert(v@.skip(i as int).drop_first() =~= v@.skip(i as int + 1));
        }
        let keep = match &v[i] {
            Object::Reference(rid) => !(rid.num == pid.num && rid.gen == pid.gen),
            _ => true,
        };
        if keep {
            proof {
                assert(v@[i as int] != Object::Reference(pid));
            }
            let ghost w_old = w@;
            let e = purge_obj(&v[i], pid);
            w.push(e);
            proof {
                assert forall|w2: Seq<Object>|
                    purged_arr(v@.skip(i as int + 1), w2, pid) implies purged_arr(
                    v@,
                    (w_old + seq![e]) + w2,
                    pid,
                ) by {
                    assert((w_old + seq![e]) + w2 =~= w_old + (seq![e] + w2));
                    assert((seq![e] + w2)[0] == e);
                    assert((seq![e] + w2).drop_first() =~= w2);
                    assert(purged_arr(v@.skip(i as int), seq![e] + w2, pid));
                }
                assert(w@ =~= w_old + seq![e]);
            }
        } else {
            proof {
                assert(v@[i as int] == Object::Reference(pid));
                assert forall|w2: Seq<Object>|
                    purged_arr(v@.skip(i as int + 1), w2, pid) implies purged_arr(
                    v@,
                    w@ + w2,
                    pid,
                ) by {
                    assert(purged_arr(v@.skip(i as int), w2, pid));
                }
            }
        }
        i = i + 1;
    }
    proof {
        assert(v@.skip(v@.len() as int).len() == 0);
        assert(purged_arr(v@.skip(v@.len() as int), Seq::<Object>::empty(), pid));
        assert(w@ + Seq::<Object>::empty() =~= w@);
    }
    w
}

/// Purges every value of a dictionary, nulling direct references to the
/// deleted page, keeping keys and their order.
fn purge_dict(d: &Vec<(Vec<u8>, Object)>, pid: ObjectId) -> (e: Vec<(Vec<u8>, Object)>)
    ensures
        e@.len() == d@.len(),
        forall|i: int|
            0 <= i < d@.len() ==> (#[trigger] e@[i]).0@ == d@[i].0@ && purged_value(
                d@[i].1,
                e@[i].1,
                pid,
            ),
    decreases *d,
{
    let mut e: Vec<(Vec<u8>, Object)> = Vec::new();
    let mut i: usize = 0;
    while i < d.len()
        invariant
            0 <= i <= d@.len(),
            e@.len() == i,
            forall|j: int|
                0 <= j < i ==> (#[trigger] e@[j]).0@ == d@[j].0@ && purged_value(
                    d@[j].1,
                    e@[j].1,
                    pid,
                ),
        decreases d@.len() - i,
    {
        proof {
            assert(decreases_to!(*d => d[i as int]));
            assert(decreases_to!(d[i as int] => d[i as int].1));
        }
        let k = clone_bytes(&d[i].0);
        let is_pid_ref = match &d[i].1 {
            Object::Reference(rid) => rid.num == pid.num && rid.gen == pid.gen,
            _ => false,
        };
        let v = if is_pid_ref {
            proof {
                assert(d@[i as int].1 == Object::Reference(pid));
            }
            Object::Null
        } else {
            proof {
                assert(d@[i as int].1 != Object::Reference(pid));
            }
            purge_obj(&d[i].1, pid)
        };
        e.push((k, v));
        i = i + 1;
    }
    e
}


/// Purged dictionaries answer lookups like their originals, value for
/// value through the purge relation.
pub proof fn lemma_purged_dict_lookup(
    d1: Seq<(Vec<u8>, Object)>,
    d2: Seq<(Vec<u8>, Object)>,
    pid: ObjectId,
    key: Seq<u8>,
)
    requires
        d2.len() == d1.len(),
        forall|i: int|
            0 <= i < d1.len() ==> (#[trigger] d2[i]).0@ == d1[i].0@ && purged_value(
                d1[i].1,
                d2[i].1,
                pid,
            ),
    ensures
        dict_lookup(d1, key) is None ==> dict_lookup(d2, key) is None,
        dict_lookup(d1, key) matches Some(v1) ==> (dict_lookup(d2, key) matches Some(v2)
            && purged_value(v1, v2, pid)),
    decreases d1.len(),
{
    if d1.len() > 0 && d1[0].0@ != key {
        lemma_purged_dict_lookup(d1.drop_first(), d2.drop_first(), pid, key);
    }
}

/// Purging never changes which name a dictionary key holds.
pub proof fn lemma_purged_name_value(
    d1: Seq<(Vec<u8>, Object)>,
    d2: Seq<(Vec<u8>, Object)>,
    pid: ObjectId,
    key: Seq<u8>,
)
    requires
        d2.len() == d1.len(),
        forall|i: int|
            0 <= i < d1.len() ==> (#[trigger] d2[i]).0@ == d1[i].0@ && purged_value(
                d1[i].1,
                d2[i].1,
                pid,
            ),
    ensures
        name_value(d2, key) == name_value(d1, key),
{
    lemma_purged_dict_lookup(d1, d2, pid, key);
}

/// One-kid case of the deletion walk: away from the deleted page, the
/// purged graph shows the same pages minus every occurrence of that page.
pub proof fn lemma_walk_kid_purged(
    m1: Seq<(ObjectId, Object)>,
    m2: Seq<(ObjectId, Object)>,
    pid: ObjectId,
    kid: Object,
    fuel: nat,
)
    requires
        forall|id: ObjectId|
            id != pid ==> ((#[trigger] lookup(m1, id)) matches Some(o1) ==> (lookup(
                m2,
                id,
            ) matches Some(o2) && purged(o1, o2, pid))),
        forall|id: ObjectId| #[trigger] lookup(m1, id) is None ==> lookup(m2, id) is None,
        lookup(m2, pid) is None,
        lookup(m1, pid) matches Some(Object::Dictionary(dp)) && name_value(dp@, k_type()) == Some(
            k_page(),
        ),
        kid != Object::Reference(pid),
        walk_kid(m1, kid, fuel) is Some,
    ensures
        walk_kid(m2, kid, fuel) == Some(drop_page(walk_kid(m1, kid, fuel)->Some_0, pid)),
    decreases fuel, 0nat, 0nat,
{
    match kid {
        Object::Reference(id) => {
            assert(id != pid);
            match lookup(m1, id) {
                None => {
                    assert(lookup(m2, id) is None);
                },
                Some(o1) => {
                    let o2 = lookup(m2, id)->Some_0;
                    assert(purged(o1, o2, pid));
                    match o1 {
                        Object::Dictionary(d1) => {
                            let d2 = o2->Dictionary_0;
                            lemma_purged_name_value(d1@, d2@, pid, k_type());
                            let t = name_value(d1@, k_type());
                            if t == Some(k_page()) {
                                assert(walk_kid(m1, kid, fuel) == Some(seq![id]));
                                assert(walk_kid(m2, kid, fuel) == Some(seq![id]));
                                assert(seq![id].drop_first() =~= Seq::<ObjectId>::empty());
                                assert(drop_page(Seq::<ObjectId>::empty(), pid)
                                    =~= Seq::<ObjectId>::empty());
                                assert(seq![id] + Seq::<ObjectId>::empty() =~= seq![id]);
                                assert(drop_page(seq![id], pid) =~= seq![id]);
                            } else if t == Some(k_pages()) {
                                assert(fuel > 0);
                                lemma_purged_dict_lookup(d1@, d2@, pid, k_kids());
                                match kids_of(d1@) {
                                    None => {
                                        assert(kids_of(d2@) is None);
                                    },
                                    Some(kids1) => {
                                        let kv1 = dict_lookup(d1@, k_kids())->Some_0;
                                        let kv2 = dict_lookup(d2@, k_kids())->Some_0;
                                        assert(kv1 matches Object::Array(a1) && a1@ == kids1);
                                        assert(kv1 != Object::Reference(pid));
                                        assert(purged(kv1, kv2, pid));
                                        let kids2 = kv2->Array_0;
                                        assert(purged_arr(kids1, kids2@, pid));
                                        lemma_walk_kids_purged(
                                            m1,
                                            m2,
                                            pid,
                                            kids1,
                                            kids2@,
                                            (fuel - 1) as nat,
                                        );
                                    },
                                }
                            }
                        },
                        _ => {
                            assert(!(o2 matches Object::Dictionary(_)));
                        },
                    }
                },
            }
        },
        _ => {},
    }
}

/// The deletion walk over a purged kids array: the same pages come back,
/// minus every occurrence of the deleted page.
pub proof fn lemma_walk_kids_purged(
    m1: Seq<(ObjectId, Object)>,
    m2: Seq<(ObjectId, Object)>,
    pid: ObjectId,
    kids1: Seq<Object>,
    kids2: Seq<Object>,
    fuel: nat,
)
    requires
        forall|id: ObjectId|
            id != pid ==> ((#[trigger] lookup(m1, id)) matches Some(o1) ==> (lookup(
                m2,
                id,
            ) matches Some(o2) && purged(o1, o2, pid))),
        forall|id: ObjectId| #[trigger] lookup(m1, id) is None ==> lookup(m2, id) is None,
        lookup(m2, pid) is None,
        lookup(m1, pid) matches Some(Object::Dictionary(dp)) && name_value(dp@, k_type()) == Some(
            k_page(),
        ),
        purged_arr(kids1, kids2, pid),
        walk_kids(m1, kids1, fuel) is Some,
    ensures
        walk_kids(m2, kids2, fuel) == Some(drop_page(walk_kids(m1, kids1, fuel)->Some_0, pid)),
    decreases fuel, 1nat, kids1.len(),
{
    let ps = walk_kids(m1, kids1, fuel)->Some_0;
    if kids1.len() == 0 {
        assert(kids2.len() == 0);
    } else {
        let first = walk_kid(m1, kids1[0], fuel)->Some_0;
        let rest = walk_kids(m1, kids1.drop_first(), fuel)->Some_0;
        assert(ps == first + rest);
        if kids1[0] == Object::Reference(pid) {
            assert(purged_arr(kids1.drop_first(), kids2, pid));
            assert(first == seq![pid]);
            lemma_walk_kids_purged(m1, m2, pid, kids1.drop_first(), kids2, fuel);
            lemma_drop_page_concat(first, rest, pid);
            assert(seq![pid].drop_first() =~= Seq::<ObjectId>::empty());
            assert(drop_page(Seq::<ObjectId>::empty(), pid) =~= Seq::<ObjectId>::empty());
            assert(drop_page(seq![pid], pid) =~= Seq::<ObjectId>::empty());
            assert(Seq::<ObjectId>::empty() + drop_page(rest, pid) =~= drop_page(rest, pid));
        } else {
            assert(kids2.len() > 0 && purged(kids1[0], kids2[0], pid) && purged_arr(
                kids1.drop_first(),
                kids2.drop_first(),
                pid,
            ));
            match kids1[0] {
                Object::Reference(id) => {
                    assert(kids2[0] == kids1[0]);
                    lemma_walk_kid_purged(m1, m2, pid, kids1[0], fuel);
                },
                _ => {
                    assert(!(kids2[0] matches Object::Reference(_)));
                    assert(walk_kid(m1, kids1[0], fuel) == Some(Seq::<ObjectId>::empty()));
                    assert(walk_kid(m2, kids2[0], fuel) == Some(Seq::<ObjectId>::empty()));
                },
            }
            lemma_walk_kids_purged(m1, m2, pid, kids1.drop_first(), kids2.drop_first(), fuel);
            lemma_drop_page_concat(first, rest, pid);
            assert(walk_kids(m2, kids2, fuel) == Some(
                drop_page(first, pid) + drop_page(rest, pid),
            ));
        }
    }
}

/// The two objects differ at most in the integers their `Count` entries
/// hold: everything the page walk reads is untouched.
pub open spec fn counts_only_diff(o1: Object, o2: Object) -> bool {
    o2 == o1 || (o1 matches Object::Dictionary(d1) && o2 matches Object::Dictionary(d2)
        && d2@.len() == d1@.len() && (forall|i: int|
        0 <= i < d1@.len() ==> (#[trigger] d2@[i]).0@ == d1@[i].0@ && (d1@[i].0@ == k_count()
            ==> (d2@[i].1 == d1@[i].1 || (d1@[i].1 is Integer && d2@[i].1 is Integer))) && (
        d1@[i].0@ != k_count() ==> d2@[i].1 == d1@[i].1)))
}

/// Adjusting counts twice still only adjusts counts.
pub proof fn lemma_counts_only_diff_trans(o1: Object, o2: Object, o3: Object)
    requires
        counts_only_diff(o1, o2),
        counts_only_diff(o2, o3),
    ensures
        counts_only_diff(o1, o3),
{
}

/// One-kid case: the walk ignores `Count`, so adjusting counts anywhere
/// leaves it unchanged.
pub proof fn lemma_walk_kid_counts(
    m1: Seq<(ObjectId, Object)>,
    m3: Seq<(ObjectId, Object)>,
    kid: Object,
    fuel: nat,
)
    requires
        forall|id: ObjectId| #[trigger] lookup(m1, id) is Some <==> lookup(m3, id) is Some,
        forall|id: ObjectId|
            (#[trigger] lookup(m1, id)) matches Some(o1) ==> (lookup(m3, id) matches Some(o2)
                && counts_only_diff(o1, o2)),
    ensures
        walk_kid(m3, kid, fuel) == walk_kid(m1, kid, fuel),
    decreases fuel, 0nat,
{
    crate::merge::lemma_keys_distinct();
    match kid {
        Object::Reference(id) => {
            match lookup(m1, id) {
                None => {
                    assert(lookup(m3, id) is None);
                },
                Some(o1) => {
                    let o2 = lookup(m3, id)->Some_0;
                    assert(counts_only_diff(o1, o2));
                    if o2 != o1 {
                        let d1 = o1->Dictionary_0;
                        let d2 = o2->Dictionary_0;
                        crate::document::lemma_dict_lookup_pointwise(d1@, d2@, k_type());
                        crate::document::lemma_dict_lookup_pointwise(d1@, d2@, k_kids());
                        let t = name_value(d1@, k_type());
                        if t != Some(k_page()) && t == Some(k_pages()) && fuel > 0 {
                            match kids_of(d1@) {
                                Some(kids) => {
                                    lemma_walk_kids_counts(m1, m3, kids, (fuel - 1) as nat);
                                },
                                None => {},
                            }
                        }
                    } else {
                        match o1 {
                            Object::Dictionary(d1) => {
                                let t = name_value(d1@, k_type());
                                if t != Some(k_page()) && t == Some(k_pages()) && fuel > 0 {
                                    match kids_of(d1@) {
                                        Some(kids) => {
                                            lemma_walk_kids_counts(
                                                m1,
                                                m3,
                                                kids,
                                                (fuel - 1) as nat,
                                            );
                                        },
                                        None => {},
                                    }
                                }
                            },
                            _ => {},
                        }
                    }
                },
            }
        },
        _ => {},
    }
}

/// The page walk is blind to `Count` adjustments.
pub proof fn lemma_walk_kids_counts(
    m1: Seq<(ObjectId, Object)>,
    m3: Seq<(ObjectId, Object)>,
    kids: Seq<Object>,
    fuel: nat,
)
    requires
        forall|id: ObjectId| #[trigger] lookup(m1, id) is Some <==> lookup(m3, id) is Some,
        forall|id: ObjectId|
            (#[trigger] lookup(m1, id)) matches Some(o1) ==> (lookup(m3, id) matches Some(o2)
                && counts_only_diff(o1, o2)),
    ensures
        walk_kids(m3, kids, fuel) == walk_kids(m1, kids, fuel),
    decreases fuel, 1nat, kids.len(),
{
    if kids.len() > 0 {
        lemma_walk_kid_counts(m1, m3, kids[0], fuel);
        lemma_walk_kids_counts(m1, m3, kids.drop_first(), fuel);
    }
}


/// An arena with no entry for `id` resolves nothing at `id`.
pub proof fn lemma_lookup_absent(objs: Seq<(ObjectId, Object)>, id: ObjectId)
    requires
        forall|j: int| 0 <= j < objs.len() ==> (#[trigger] objs[j]).0 != id,
    ensures
        lookup(objs, id) is None,
    decreases objs.len(),
{
    if objs.len() > 0 {
        assert forall|j: int| 0 <= j < objs.drop_first().len() implies (
        #[trigger] objs.drop_first()[j]).0 != id by {
            assert(objs.drop_first()[j] == objs[j + 1]);
        }
        lemma_lookup_absent(objs.drop_first(), id);
    }
}


/// Dropping a page that never occurs changes nothing.
pub proof fn lemma_drop_page_absent(s: Seq<ObjectId>, pid: ObjectId)
    requires
        forall|j: int| 0 <= j < s.len() ==> #[trigger] s[j] != pid,
    ensures
        drop_page(s, pid) == s,
    decreases s.len(),
{
    if s.len() > 0 {
        assert forall|j: int| 0 <= j < s.drop_first().len() implies #[trigger] s.drop_first()[j]
            != pid by {
            assert(s.drop_first()[j] == s[j + 1]);
        }
        lemma_drop_page_absent(s.drop_first(), pid);
        assert(seq![s[0]] + s.drop_first() =~= s);
    }
}

/// In a sequence without repeats, dropping the page at one position is
/// removing that position.
pub proof fn lemma_drop_page_eq_remove(s: Seq<ObjectId>, i: int)
    requires
        0 <= i < s.len(),
        forall|p: int, q: int| 0 <= p < q < s.len() ==> s[p] != s[q],
    ensures
        drop_page(s, s[i]) == s.remove(i),
    decreases i,
{
    if i == 0 {
        assert forall|j: int| 0 <= j < s.drop_first().len() implies #[trigger] s.drop_first()[j]
            != s[0] by {
            assert(s.drop_first()[j] == s[j + 1]);
        }
        lemma_drop_page_absent(s.drop_first(), s[0]);
        assert(s.remove(0) =~= s.drop_first());
    } else {
        assert(s[0] != s[i]);
        assert forall|p: int, q: int|
            0 <= p < q < s.drop_first().len() implies s.drop_first()[p] != s.drop_first()[q] by {
            assert(s.drop_first()[p] == s[p + 1] && s.drop_first()[q] == s[q + 1]);
        }
        assert(s.drop_first()[i - 1] == s[i]);
        lemma_drop_page_eq_remove(s.drop_first(), i - 1);
        assert(seq![s[0]] + s.drop_first().remove(i - 1) =~= s.remove(i));
    }
}


/// Assembles the deletion result: on a well-formed document with distinct
/// pages, purging one page and then adjusting counts leaves exactly the
/// other pages, in order.
proof fn delete_one_pages_proof(
    d0: Document,
    mid: Document,
    fin: Document,
    pid: ObjectId,
    pos: int,
    di: int,
)
    requires
        doc_wf(d0),
        spec_page_seq(d0) is Some,
        1 <= pos <= spec_page_seq(d0)->Some_0.len(),
        forall|i: int, j: int|
            0 <= i < j < spec_page_seq(d0)->Some_0.len() ==> spec_page_seq(d0)->Some_0[i]
                != spec_page_seq(d0)->Some_0[j],
        pages_root_id(d0) matches Some(rid) ==> spec_page_seq(d0)->Some_0[pos - 1] != rid,
        crate::document::ref_value(d0.trailer@, crate::document::k_root()) matches Some(cid)
            ==> spec_page_seq(d0)->Some_0[pos - 1] != cid,
        pid == spec_page_seq(d0)->Some_0[pos - 1],
        0 <= di < d0.objects@.len(),
        d0.objects@[di].0 == pid,
        mid.objects@.len() == d0.objects@.len() - 1,
        forall|j: int|
            0 <= j < di ==> (#[trigger] mid.objects@[j]).0 == d0.objects@[j].0 && purged(
                d0.objects@[j].1,
                mid.objects@[j].1,
                pid,
            ),
        forall|j: int|
            di <= j < mid.objects@.len() ==> (#[trigger] mid.objects@[j]).0 == d0.objects@[j
                + 1].0 && purged(d0.objects@[j + 1].1, mid.objects@[j].1, pid),
        mid.trailer@.len() == d0.trailer@.len(),
        forall|j: int|
            0 <= j < d0.trailer@.len() ==> (#[trigger] mid.trailer@[j]).0@ == d0.trailer@[j].0@
                && purged_value(d0.trailer@[j].1, mid.trailer@[j].1, pid),
        mid.max_id == d0.max_id,
        fin.trailer == mid.trailer,
        fin.max_id == mid.max_id,
        fin.objects@.len() == mid.objects@.len(),
        forall|j: int|
            0 <= j < mid.objects@.len() ==> (#[trigger] fin.objects@[j]).0 == mid.objects@[j].0,
        forall|j: int|
            0 <= j < mid.objects@.len() ==> counts_only_diff(
                mid.objects@[j].1,
                (#[trigger] fin.objects@[j]).1,
            ),
    ensures
        doc_wf(fin),
        fin.max_id == d0.max_id,
        fin.objects@.len() == d0.objects@.len() - 1,
        spec_page_seq(fin) == Some(spec_page_seq(d0)->Some_0.remove(pos - 1)),
        pages_root_id(fin) == pages_root_id(d0),
        crate::document::ref_value(fin.trailer@, crate::document::k_root())
            == crate::document::ref_value(d0.trailer@, crate::document::k_root()),
{
    crate::merge::lemma_keys_distinct();
    let m1 = d0.objects@;
    let m2 = mid.objects@;
    let m3 = fin.objects@;
    let ps = spec_page_seq(d0)->Some_0;
    crate::document::lemma_page_seq_live(d0);
    assert(lookup(m1, pid) is Some);
    lemma_lookup_index(m1, pid);
    crate::merge::lemma_unique_lookup_at(m1, di);
    assert(index_of_id(m1, pid) == di);

    // The result is well formed: its identifiers come from the original.
    assert forall|i: int, j: int|
        0 <= i < j < m3.len() implies (#[trigger] m3[i]).0 != (#[trigger] m3[j]).0 by {
        let oi = if i < di { i } else { i + 1 };
        let oj = if j < di { j } else { j + 1 };
        assert(m3[i].0 == m1[oi].0 && m3[j].0 == m1[oj].0);
    }
    assert forall|i: int| 0 <= i < m3.len() implies (#[trigger] m3[i]).0.num <= fin.max_id by {
        let oi = if i < di { i } else { i + 1 };
        assert(m3[i].0 == m1[oi].0);
    }
    assert(doc_wf(fin));

    // Lookups in the purged arena, entry for entry.
    assert forall|j: int| 0 <= j < m2.len() implies (#[trigger] m2[j]).0 != pid by {
        let oj = if j < di { j } else { j + 1 };
        assert(m2[j].0 == m1[oj].0);
        crate::merge::lemma_unique_lookup_at(m1, oj);
    }
    lemma_lookup_absent(m2, pid);
    assert forall|id: ObjectId|
        id != pid implies ((#[trigger] lookup(m1, id)) matches Some(o1) ==> (lookup(
        m2,
        id,
    ) matches Some(o2) && purged(o1, o2, pid))) by {
        if lookup(m1, id) is Some {
            lemma_lookup_index(m1, id);
            let oi = index_of_id(m1, id);
            let ni = if oi < di { oi } else { oi - 1 };
            assert(oi != di);
            assert(m2[ni].0 == id && purged(m1[oi].1, m2[ni].1, pid));
            assert forall|j: int| 0 <= j < ni implies (#[trigger] m2[j]).0 != id by {
                let oj = if j < di { j } else { j + 1 };
                assert(m2[j].0 == m1[oj].0);
                assert(oj < oi);
            }
            crate::merge::lemma_first_id_at(m2, id, ni);
        }
    }
    assert forall|id: ObjectId| #[trigger] lookup(m1, id) is None implies lookup(m2, id)
        is None by {
        crate::document::lemma_lookup_none(m1, id);
        assert forall|j: int| 0 <= j < m2.len() implies (#[trigger] m2[j]).0 != id by {
            let oj = if j < di { j } else { j + 1 };
            assert(m2[j].0 == m1[oj].0);
        }
        lemma_lookup_absent(m2, id);
    }

    // The page walk over the purged arena drops exactly the deleted page.
    let rid = pages_root_id(d0)->Some_0;
    let cid = crate::document::ref_value(d0.trailer@, crate::document::k_root())->Some_0;
    assert(pages_root_id(d0) is Some && ps.len() > 0);
    assert(crate::document::ref_value(d0.trailer@, crate::document::k_root()) == Some(cid));
    assert(pid != cid && pid != rid);
    lemma_purged_dict_lookup(d0.trailer@, mid.trailer@, pid, crate::document::k_root());
    assert(crate::document::ref_value(mid.trailer@, crate::document::k_root()) == Some(cid));
    assert(lookup(m1, cid) is Some) by {
        if lookup(m1, cid) is None {
            assert(catalog_of(d0) is None);
            assert(pages_root_id(d0) is None);
        }
    }
    let cat1 = lookup(m1, cid)->Some_0;
    let cat2 = lookup(m2, cid)->Some_0;
    assert(purged(cat1, cat2, pid));
    assert(cat1 matches Object::Dictionary(_)) by {
        if !(cat1 matches Object::Dictionary(_)) {
            assert(catalog_of(d0) is None);
        }
    }
    let cd1 = cat1->Dictionary_0;
    let cd2 = cat2->Dictionary_0;
    lemma_purged_dict_lookup(cd1@, cd2@, pid, k_pages());
    assert(crate::document::ref_value(cd1@, k_pages()) == Some(rid));
    assert(crate::document::ref_value(cd2@, k_pages()) == Some(rid));
    assert(pages_root_id(mid) == Some(rid));
    assert(lookup(m1, rid) is Some) by {
        if lookup(m1, rid) is None {
            assert(spec_page_seq(d0) == Some(Seq::<ObjectId>::empty()));
        }
    }
    let root1 = lookup(m1, rid)->Some_0;
    let root2 = lookup(m2, rid)->Some_0;
    assert(purged(root1, root2, pid));
    assert(root1 matches Object::Dictionary(_)) by {
        if !(root1 matches Object::Dictionary(_)) {
            assert(spec_page_seq(d0) == Some(Seq::<ObjectId>::empty()));
        }
    }
    let rd1 = root1->Dictionary_0;
    let rd2 = root2->Dictionary_0;
    assert(kids_of(rd1@) is Some) by {
        if kids_of(rd1@) is None {
            assert(spec_page_seq(d0) == Some(Seq::<ObjectId>::empty()));
        }
    }
    let kids1 = kids_of(rd1@)->Some_0;
    lemma_purged_dict_lookup(rd1@, rd2@, pid, k_kids());
    let kv1 = dict_lookup(rd1@, k_kids())->Some_0;
    let kv2 = dict_lookup(rd2@, k_kids())->Some_0;
    assert(kv1 matches Object::Array(a1) && a1@ == kids1);
    assert(kv1 != Object::Reference(pid));
    assert(purged(kv1, kv2, pid));
    let kids2 = kv2->Array_0;
    assert(walk_kids(m1, kids1, page_fuel()) == Some(ps));
    lemma_walk_kids_purged(m1, m2, pid, kids1, kids2@, page_fuel());
    assert(spec_page_seq(mid) == Some(drop_page(ps, pid)));
    lemma_drop_page_eq_remove(ps, pos - 1);

    // Count adjustments are invisible to the walk.
    assert forall|id: ObjectId| #[trigger] lookup(m2, id) is Some <==> lookup(m3, id) is Some by {
        crate::merge::lemma_lookup_same_ids(m2, m3, id);
    }
    assert forall|id: ObjectId|
        (#[trigger] lookup(m2, id)) is Some implies (lookup(m3, id) is Some && counts_only_diff(
        lookup(m2, id)->Some_0,
        lookup(m3, id)->Some_0,
    )) by {
        if lookup(m2, id) is Some {
            lemma_lookup_index(m2, id);
            let ni = index_of_id(m2, id);
            assert forall|j: int| 0 <= j < ni implies (#[trigger] m3[j]).0 != id by {
                assert(m3[j].0 == m2[j].0);
            }
            crate::merge::lemma_first_id_at(m3, id, ni);
        }
    }
    assert(crate::document::ref_value(fin.trailer@, crate::document::k_root()) == Some(cid));
    let cat3 = lookup(m3, cid)->Some_0;
    assert(counts_only_diff(cat2, cat3));
    let cd3 = cat3->Dictionary_0;
    assert(crate::document::ref_value(cd3@, k_pages()) == Some(rid)) by {
        if cat3 != cat2 {
            crate::document::lemma_dict_lookup_pointwise(cd2@, cd3@, k_pages());
        }
    }
    assert(pages_root_id(fin) == Some(rid));
    let root3 = lookup(m3, rid)->Some_0;
    assert(counts_only_diff(root2, root3));
    let rd3 = root3->Dictionary_0;
    assert(kids_of(rd3@) == Some(kids2@)) by {
        if root3 != root2 {
            crate::document::lemma_dict_lookup_pointwise(rd2@, rd3@, k_kids());
        }
    }
    lemma_walk_kids_counts(m2, m3, kids2@, page_fuel());
    assert(spec_page_seq(fin) == Some(drop_page(ps, pid)));
}

/// Deletes the page standing at 1-indexed position `pos`: detaches every
/// reference to it from every array, nulls direct dictionary references to
/// it, removes its object, and walks its `Parent` chain decrementing each
/// ancestor's integer `Count` once, for at most as many steps as the arena
/// has objects.
fn delete_one(doc: &mut Document, pos: usize)
    requires
        doc_wf(*old(doc)),
        spec_page_seq(*old(doc)) is Some,
        1 <= pos <= spec_page_seq(*old(doc))->Some_0.len(),
        forall|i: int, j: int|
            0 <= i < j < spec_page_seq(*old(doc))->Some_0.len() ==> spec_page_seq(
                *old(doc),
            )->Some_0[i] != spec_page_seq(*old(doc))->Some_0[j],
        pages_root_id(*old(doc)) matches Some(rid) ==> spec_page_seq(*old(doc))->Some_0[pos - 1]
            != rid,
        crate::document::ref_value(old(doc).trailer@, crate::document::k_root()) matches Some(cid)
            ==> spec_page_seq(*old(doc))->Some_0[pos - 1] != cid,
    ensures
        doc_wf(*final(doc)),
        final(doc).max_id == old(doc).max_id,
        final(doc).objects@.len() == old(doc).objects@.len() - 1,
        spec_page_seq(*final(doc)) == Some(spec_page_seq(*old(doc))->Some_0.remove(pos - 1)),
        pages_root_id(*final(doc)) == pages_root_id(*old(doc)),
        crate::document::ref_value(final(doc).trailer@, crate::document::k_root())
            == crate::document::ref_value(old(doc).trailer@, crate::document::k_root()),
{
    let ghost d0 = *old(doc);
    let ghost m1 = d0.objects@;
    let ghost ps = spec_page_seq(d0)->Some_0;
    proof {
        crate::document::lemma_page_seq_live(d0);
    }
    let pages = match crate::document::page_ids(doc) {
        Ok(v) => v,
        Err(_) => vstd::pervasive::unreached(),
    };
    let pid = pages[pos - 1];
    proof {
        assert(pid == ps[pos - 1]);
        assert(lookup(m1, pid) is Some);
        lemma_lookup_index(m1, pid);
    }
    let di = match crate::document::find_index(&doc.objects, pid) {
        Some(i) => i,
        None => vstd::pervasive::unreached(),
    };

    // Remember the page's parent before the object goes away.
    let pakey = crate::document::key_parent();
    let parent0: Option<ObjectId> = {
        match crate::document::get_object(&doc.objects, pid) {
            Some(Object::Dictionary(pd)) => {
                match crate::document::dict_get(pd, &pakey) {
                    Some(Object::Reference(t)) => Some(*t),
                    _ => None,
                }
            },
            _ => None,
        }
    };

    // Detach the page everywhere and drop its object.
    let n = doc.objects.len();
    let mut newobjs: Vec<(ObjectId, Object)> = Vec::new();
    let mut i: usize = 0;
    while i < n
        invariant
            0 <= i <= n,
            n == m1.len(),
            doc.objects@ == m1,
            0 <= di < n,
            m1[di as int].0 == pid,
            newobjs@.len() == (if i <= di {
                i as int
            } else {
                i - 1
            }),
            forall|j: int|
                0 <= j < i && j < di ==> (#[trigger] newobjs@[j]).0 == m1[j].0 && purged(
                    m1[j].1,
                    newobjs@[j].1,
                    pid,
                ),
            forall|j: int|
                di <= j && j + 1 < i ==> (#[trigger] newobjs@[j]).0 == m1[j + 1].0 && purged(
                    m1[j + 1].1,
                    newobjs@[j].1,
                    pid,
                ),
        decreases n - i,
    {
        if i != di {
            let v = purge_obj(&doc.objects[i].1, pid);
            newobjs.push((doc.objects[i].0, v));
        }
        i = i + 1;
    }
    let newtrailer = purge_dict(&doc.trailer, pid);
    doc.objects = newobjs;
    doc.trailer = newtrailer;
    let ghost mid = *doc;

    // Walk the parent chain, decrementing each ancestor's Count once.
    let ckey = crate::document::key_count();
    let mut cur: Option<ObjectId> = parent0;
    let mut fuel: usize = n;
    while fuel > 0 && cur.is_some()
        invariant
            ckey@ == crate::document::k_count(),
            doc.trailer == mid.trailer,
            doc.max_id == mid.max_id,
            doc.objects@.len() == mid.objects@.len(),
            forall|j: int|
                0 <= j < mid.objects@.len() ==> (#[trigger] doc.objects@[j]).0
                    == mid.objects@[j].0,
            forall|j: int|
                0 <= j < mid.objects@.len() ==> counts_only_diff(
                    mid.objects@[j].1,
                    (#[trigger] doc.objects@[j]).1,
                ),
        decreases fuel,
    {
        let t = match cur {
            Some(t) => t,
            None => vstd::pervasive::unreached(),
        };
        match crate::document::find_index(&doc.objects, t) {
            None => {
                cur = None;
            },
            Some(oi) => {
                let ghost before = doc.objects@;
                let (eid, eobj) = doc.objects.remove(oi);
                match eobj {
                    Object::Dictionary(entries) => {
                        let mut entries = entries;
                        let ghost e_before = entries@;
                        match crate::document::find_key(&entries, &ckey) {
                            Some(ci2) => {
                                let (ck, cv) = entries.remove(ci2);
                                match cv {
                                    Object::Integer(c) => {
                                        let c2 = if c > i64::MIN {
                                            c - 1
                                        } else {
                                            c
                                        };
                                        entries.insert(ci2, (ck, Object::Integer(c2)));
                                        proof {
                                            assert(entries@[ci2 as int].1 is Integer
                                                && e_before[ci2 as int].1 is Integer);
                                        }
                                    },
                                    other => {
                                        entries.insert(ci2, (ck, other));
                                        proof {
                                            assert(entries@[ci2 as int].1 == e_before[ci2 as int].1);
                                        }
                                    },
                                }
                                proof {
                                    assert(entries@ =~= e_before.update(
                                        ci2 as int,
                                        (e_before[ci2 as int].0, entries@[ci2 as int].1),
                                    ));
                                    assert(counts_only_diff(
                                        before[oi as int].1,
                                        Object::Dictionary(entries),
                                    )) by {
                                        let d1 = before[oi as int].1->Dictionary_0;
                                        assert(d1@ == e_before);
                                        assert forall|q: int|
                                            0 <= q < e_before.len() implies (
                                        #[trigger] entries@[q]).0@ == d1@[q].0@ && (d1@[q].0@
                                            == k_count() ==> (entries@[q].1 == d1@[q].1 || (
                                        d1@[q].1 is Integer && entries@[q].1 is Integer))) && (
                                        d1@[q].0@ != k_count() ==> entries@[q].1 == d1@[q].1) by {
                                            if q != ci2 as int {
                                                assert(entries@[q] == e_before[q]);
                                            } else {
                                                assert(entries@[ci2 as int] == (
                                                e_before[ci2 as int].0,
                                                entries@[ci2 as int].1,
                                                ));
                                                assert(e_before[ci2 as int].0@ == k_count());
                                            }
                                        }
                                    }
                                }
                            },
                            None => {
                                proof {
                                    assert(Object::Dictionary(entries) == before[oi as int].1);
                                    assert(counts_only_diff(
                                        before[oi as int].1,
                                        Object::Dictionary(entries),
                                    ));
                                }
                            },
                        }
                        proof {
                            assert(counts_only_diff(
                                before[oi as int].1,
                                Object::Dictionary(entries),
                            ));
                        }
                        let next = match crate::document::dict_get(&entries, &pakey) {
                            Some(Object::Reference(t2)) => Some(*t2),
                            _ => None,
                        };
                        doc.objects.insert(oi, (eid, Object::Dictionary(entries)));
                        proof {
                            assert(doc.objects@ =~= before.update(
                                oi as int,
                                (before[oi as int].0, doc.objects@[oi as int].1),
                            ));
                            assert(counts_only_diff(
                                before[oi as int].1,
                                doc.objects@[oi as int].1,
                            ));
                            assert forall|j: int|
                                0 <= j < mid.objects@.len() implies counts_only_diff(
                                mid.objects@[j].1,
                                (#[trigger] doc.objects@[j]).1,
                            ) by {
                                if j == oi as int {
                                    lemma_counts_only_diff_trans(
                                        mid.objects@[j].1,
                                        before[j].1,
                                        doc.objects@[j].1,
                                    );
                                } else {
                                    assert(doc.objects@[j] == before[j]);
                                }
                            }
                        }
                        cur = next;
                    },
                    other => {
                        doc.objects.insert(oi, (eid, other));
                        proof {
                            assert(doc.objects@ =~= before);
                        }
                        cur = None;
                    },
                }
            },
        }
        fuel = fuel - 1;
    }

    proof {
        delete_one_pages_proof(d0, mid, *doc, pid, pos as int, di as int);
    }
}


/// Whether a sequence holds pairwise-distinct page identifiers.
pub open spec fn distinct_ids(s: Seq<ObjectId>) -> bool {
    forall|i: int, j: int| 0 <= i < j < s.len() ==> s[i] != s[j]
}

/// The first requested page number that is zero or beyond the page count.
pub open spec fn first_bad_page(pages: Seq<u32>, total: int) -> Option<u32>
    decreases pages.len(),
{
    if pages.len() == 0 {
        None
    } else if pages[0] == 0 || pages[0] > total {
        Some(pages[0])
    } else {
        first_bad_page(pages.drop_first(), total)
    }
}

/// Skipping acceptable page numbers does not change the first complaint.
pub proof fn lemma_first_bad_skip(pages: Seq<u32>, total: int, k: int)
    requires
        0 <= k <= pages.len(),
        forall|m: int| 0 <= m < k ==> 0 < #[trigger] pages[m] && pages[m] <= total,
    ensures
        first_bad_page(pages, total) == first_bad_page(pages.skip(k), total),
    decreases k,
{
    if k > 0 {
        lemma_first_bad_skip(pages.drop_first(), total, k - 1);
        assert forall|m: int| 0 <= m < k - 1 implies 0 < #[trigger] pages.drop_first()[m]
            && pages.drop_first()[m] <= total by {
            assert(pages.drop_first()[m] == pages[m + 1]);
        }
        assert(pages.drop_first().skip(k - 1) =~= pages.skip(k));
    } else {
        assert(pages.skip(0) =~= pages);
    }
}

/// The original pages that survive a deletion request: position `i + 1`
/// stays unless it was asked for.  Positions beyond the requestable range
/// always stay.
pub open spec fn keep_pages(ps: Seq<ObjectId>, pages: Seq<u32>, i: int) -> Seq<ObjectId>
    decreases ps.len() - i,
{
    if i < 0 || i >= ps.len() {
        Seq::empty()
    } else if i + 1 <= u32::MAX && pages.contains((i + 1) as u32) {
        keep_pages(ps, pages, i + 1)
    } else {
        seq![ps[i]] + keep_pages(ps, pages, i + 1)
    }
}

/// Requests naming the same set of pages keep the same pages.
pub proof fn lemma_keep_pages_same_set(ps: Seq<ObjectId>, a: Seq<u32>, b: Seq<u32>, i: int)
    requires
        forall|x: u32| a.contains(x) <==> b.contains(x),
    ensures
        keep_pages(ps, a, i) == keep_pages(ps, b, i),
    decreases ps.len() - i,
{
    if !(i < 0 || i >= ps.len()) {
        lemma_keep_pages_same_set(ps, a, b, i + 1);
    }
}

/// Adding an already-dropped or out-of-range page to the request does not
/// change what is kept from `i` on, once `i` has passed that position.
pub proof fn lemma_keep_agree(ps: Seq<ObjectId>, pages: Seq<u32>, q: int, i: int)
    requires
        1 <= q <= i,
    ensures
        keep_pages(ps, pages.push(q as u32), i) == keep_pages(ps, pages, i),
    decreases ps.len() - i,
{
    if !(i < 0 || i >= ps.len()) {
        assert(i + 1 > q);
        if i + 1 <= u32::MAX {
            assert(pages.push(q as u32).contains((i + 1) as u32) <==> pages.contains(
                (i + 1) as u32,
            )) by {
                if pages.contains((i + 1) as u32) {
                    let w = choose|w: int| 0 <= w < pages.len() && pages[w] == (i + 1) as u32;
                    assert(pages.push(q as u32)[w] == (i + 1) as u32);
                }
                if pages.push(q as u32).contains((i + 1) as u32) {
                    let w = choose|w: int|
                        0 <= w < pages.push(q as u32).len() && #[trigger] pages.push(q as u32)[w]
                            == (i + 1) as u32;
                    if w < pages.len() {
                        assert(pages[w] == (i + 1) as u32);
                    } else {
                        assert(pages.push(q as u32)[w] == q as u32);
                        assert(q < i + 1 <= u32::MAX);
                    }
                }
            }
        }
        lemma_keep_agree(ps, pages, q, i + 1);
    }
}

/// Removing the page standing at position `q` from what an earlier request
/// kept is the same as having asked for `q` as well, as long as every page
/// already asked for stood beyond `q`.
pub proof fn lemma_keep_remove(ps: Seq<ObjectId>, pages: Seq<u32>, q: int, i: int)
    requires
        0 <= i <= q - 1,
        1 <= q <= ps.len(),
        q <= u32::MAX,
        forall|m: int| 0 <= m < pages.len() ==> #[trigger] pages[m] > q,
    ensures
        keep_pages(ps, pages, i).len() >= q - i,
        keep_pages(ps, pages, i)[q - 1 - i] == ps[q - 1],
        keep_pages(ps, pages, i).remove(q - 1 - i) == keep_pages(ps, pages.push(q as u32), i),
    decreases q - i,
{
    assert(i < ps.len());
    assert(!pages.contains((i + 1) as u32)) by {
        if pages.contains((i + 1) as u32) {
            let w = choose|w: int| 0 <= w < pages.len() && pages[w] == (i + 1) as u32;
            assert(pages[w] > q);
        }
    }
    if i == q - 1 {
        assert(pages.push(q as u32).contains((i + 1) as u32)) by {
            assert(pages.push(q as u32)[pages.len() as int] == q as u32);
        }
        lemma_keep_agree(ps, pages, q, q);
        assert(keep_pages(ps, pages, i) == seq![ps[i]] + keep_pages(ps, pages, i + 1));
        assert((seq![ps[i]] + keep_pages(ps, pages, i + 1)).remove(0) =~= keep_pages(
            ps,
            pages,
            i + 1,
        ));
        assert(keep_pages(ps, pages.push(q as u32), i) == keep_pages(ps, pages.push(q as u32), q));
    } else {
        assert(!pages.push(q as u32).contains((i + 1) as u32)) by {
            if pages.push(q as u32).contains((i + 1) as u32) {
                let w = choose|w: int|
                    0 <= w < pages.push(q as u32).len() && #[trigger] pages.push(q as u32)[w] == (
                    i + 1) as u32;
                if w < pages.len() {
                    assert(pages[w] == (i + 1) as u32 && pages[w] > q);
                } else {
                    assert(pages.push(q as u32)[w] == q as u32);
                }
            }
        }
        lemma_keep_remove(ps, pages, q, i + 1);
        assert(keep_pages(ps, pages, i) == seq![ps[i]] + keep_pages(ps, pages, i + 1));
        assert((seq![ps[i]] + keep_pages(ps, pages, i + 1)).remove(q - 1 - i) =~= seq![ps[i]]
            + keep_pages(ps, pages, i + 1).remove(q - 1 - (i + 1)));
        assert(keep_pages(ps, pages.push(q as u32), i) == seq![ps[i]] + keep_pages(
            ps,
            pages.push(q as u32),
            i + 1,
        ));
    }
}

/// A strictly descending sequence grows by at least one per step back.
pub proof fn lemma_desc_bound(s: Seq<u32>, j: int)
    requires
        0 <= j < s.len(),
        forall|p: int, q: int| 0 <= p < q < s.len() ==> s[p] > s[q],
    ensures
        s[0] >= s[j] + j,
    decreases j,
{
    if j > 0 {
        lemma_desc_bound(s, j - 1);
        assert(s[j - 1] > s[j]);
    }
}

/// Copies a vector of page numbers.
fn clone_nums(v: &Vec<u32>) -> (r: Vec<u32>)
    ensures
        r@ == v@,
{
    let r = v.clone();
    proof {
        assert(r@ =~= v@);
    }
    r
}

/// Sorts page numbers into strictly descending order; the input must be
/// free of repeats.  The result holds exactly the same numbers.
fn sort_desc(v: &Vec<u32>) -> (s: Vec<u32>)
    requires
        forall|i: int, j: int| 0 <= i < j < v@.len() ==> v@[i] != v@[j],
    ensures
        s@.len() == v@.len(),
        forall|p: int, q: int| 0 <= p < q < s@.len() ==> s@[p] > s@[q],
        forall|x: u32| s@.contains(x) <==> v@.contains(x),
{
    let mut rem = clone_nums(v);
    let mut out: Vec<u32> = Vec::new();
    while rem.len() > 0
        invariant
            out@.len() + rem@.len() == v@.len(),
            forall|p: int, q: int| 0 <= p < q < out@.len() ==> out@[p] > out@[q],
            forall|p: int, q: int| 0 <= p < q < rem@.len() ==> rem@[p] != rem@[q],
            forall|p: int, q: int|
                0 <= p < out@.len() && 0 <= q < rem@.len() ==> out@[p] > rem@[q],
            forall|x: u32| v@.contains(x) <==> (out@.contains(x) || rem@.contains(x)),
        decreases rem@.len(),
    {
        let mut mi: usize = 0;
        let mut k: usize = 1;
        while k < rem.len()
            invariant
                0 <= mi < k <= rem@.len(),
                rem@.len() > 0,
                forall|p: int| 0 <= p < k ==> rem@[p] <= rem@[mi as int],
            decreases rem@.len() - k,
        {
            if rem[k] > rem[mi] {
                mi = k;
            }
            k = k + 1;
        }
        let ghost rem0 = rem@;
        let ghost out0 = out@;
        let m = rem[mi];
        out.push(m);
        let _ = rem.remove(mi);
        proof {
            assert(rem@ == rem0.remove(mi as int));
            assert forall|q: int| 0 <= q < rem@.len() implies rem@[q] == rem0[if q < mi as int {
                q
            } else {
                q + 1
            }] by {}
            assert forall|p: int, q: int|
                0 <= p < q < rem@.len() implies rem@[p] != rem@[q] by {
                let op = if p < mi as int { p } else { p + 1 };
                let oq = if q < mi as int { q } else { q + 1 };
                assert(rem@[p] == rem0[op] && rem@[q] == rem0[oq]);
            }
            assert forall|p: int, q: int|
                0 <= p < out@.len() && 0 <= q < rem@.len() implies out@[p] > rem@[q] by {
                let oq = if q < mi as int { q } else { q + 1 };
                assert(rem@[q] == rem0[oq]);
                if p < out0.len() {
                    assert(out@[p] == out0[p]);
                    assert(out0[p] > rem0[oq]);
                } else {
                    assert(out@[p] == m);
                    assert(rem0[oq] <= m);
                    if oq != mi as int {
                        assert(rem0[oq] != rem0[mi as int]);
                    }
                }
            }
            assert forall|x: u32| v@.contains(x) <==> (out@.contains(x) || rem@.contains(x)) by {
                if v@.contains(x) {
                    if out0.contains(x) {
                        let w = choose|w: int| 0 <= w < out0.len() && out0[w] == x;
                        assert(out@[w] == x);
                    } else {
                        assert(rem0.contains(x));
                        let w = choose|w: int| 0 <= w < rem0.len() && rem0[w] == x;
                        if w == mi as int {
                            assert(out@[out0.len() as int] == m);
                        } else {
                            let nq = if w < mi as int { w } else { w - 1 };
                            assert(rem@[nq] == rem0[w]);
                        }
                    }
                }
                if out@.contains(x) {
                    let w = choose|w: int| 0 <= w < out@.len() && out@[w] == x;
                    if w < out0.len() {
                        assert(out0[w] == x);
                    } else {
                        assert(x == m && rem0[mi as int] == m);
                    }
                }
                if rem@.contains(x) {
                    let w = choose|w: int| 0 <= w < rem@.len() && rem@[w] == x;
                    let ow = if w < mi as int { w } else { w + 1 };
                    assert(rem0[ow] == x);
                }
            }
        }
    }
    out
}


/// With nothing asked for, everything from `i` on is kept.
pub proof fn lemma_keep_pages_empty(ps: Seq<ObjectId>, pages: Seq<u32>, i: int)
    requires
        pages.len() == 0,
        0 <= i <= ps.len(),
    ensures
        keep_pages(ps, pages, i) == ps.skip(i),
    decreases ps.len() - i,
{
    if i >= ps.len() {
        assert(ps.skip(i).len() == 0);
        assert(keep_pages(ps, pages, i) =~= ps.skip(i));
    } else {
        assert(!pages.contains((i + 1) as u32));
        lemma_keep_pages_empty(ps, pages, i + 1);
        assert(seq![ps[i]] + ps.skip(i + 1) =~= ps.skip(i));
    }
}

/// A requested page that the surgery must refuse to touch: the root pages
/// node or the catalog itself listed as a page.
pub open spec fn page_is_anchor(d: Document, ps: Seq<ObjectId>, p: u32) -> bool {
    (pages_root_id(d) matches Some(rid) && ps[p - 1] == rid) || (crate::document::ref_value(
        d.trailer@,
        crate::document::k_root(),
    ) matches Some(cid) && ps[p - 1] == cid)
}

/// Exactly when and why a deletion request is turned down, mirroring the
/// order in which it is examined.
pub open spec fn delete_decision(d: Document, pages: Seq<u32>) -> Option<PdfError> {
    if !doc_wf(d) {
        Some(PdfError::InvalidIds)
    } else if spec_page_seq(d) is None {
        Some(PdfError::MalformedPageTree)
    } else if first_bad_page(pages, spec_page_seq(d)->Some_0.len() as int) is Some {
        Some(
            PdfError::InvalidPageNumber(
                first_bad_page(pages, spec_page_seq(d)->Some_0.len() as int)->Some_0,
            ),
        )
    } else if pages.len() >= spec_page_seq(d)->Some_0.len() {
        Some(PdfError::CannotDeleteAllPages)
    } else if !distinct_ids(spec_page_seq(d)->Some_0) {
        Some(PdfError::MalformedPageTree)
    } else if exists|k: int|
        0 <= k < pages.len() && page_is_anchor(d, spec_page_seq(d)->Some_0, #[trigger] pages[k]) {
        Some(PdfError::MalformedPageTree)
    } else {
        None
    }
}

/// What a finished deletion guarantees: the arena shrank by one object per
/// page, identifiers stayed unique, and the pages are the original pages
/// minus exactly the requested positions, in their original order.
pub open spec fn deleted_result(old: Document, new: Document, pages: Seq<u32>) -> bool {
    &&& doc_wf(new)
    &&& new.max_id == old.max_id
    &&& new.objects@.len() == old.objects@.len() - pages.len()
    &&& spec_page_seq(new) == Some(keep_pages(spec_page_seq(old)->Some_0, pages, 0))
    &&& spec_page_count(new) == spec_page_count(old) - pages.len()
}

/// Deletes the given 1-indexed pages, highest position first, so that each
/// number still names the page it named in the original document.  The
/// request must not repeat a page number.  Everything is examined before
/// anything is touched; `delete_decision` says exactly which error comes
/// back and when, and an error leaves the document untouched.
pub fn delete_pages(doc: &mut Document, pages_to_delete: &Vec<u32>) -> (r: Result<(), PdfError>)
    requires
        forall|i: int, j: int|
            0 <= i < j < pages_to_delete@.len() ==> pages_to_delete@[i] != pages_to_delete@[j],
    ensures
        r is Err <==> delete_decision(*old(doc), pages_to_delete@) is Some,
        r is Err ==> r == Err::<(), PdfError>(delete_decision(*old(doc), pages_to_delete@)->Some_0)
            && *final(doc) == *old(doc),
        r is Ok ==> deleted_result(*old(doc), *final(doc), pages_to_delete@),
{
    let ghost d0 = *old(doc);
    let ghost req = pages_to_delete@;
    if !crate::document::check_wf(doc) {
        return Err(PdfError::InvalidIds);
    }
    let ps_vec = match crate::document::page_ids(doc) {
        Ok(v) => v,
        Err(_) => {
            return Err(PdfError::MalformedPageTree);
        },
    };
    let ghost ps0 = ps_vec@;
    let total = ps_vec.len();
    let m = pages_to_delete.len();

    // Every requested number must name a page.
    let mut k: usize = 0;
    while k < m
        invariant
            0 <= k <= m,
            m == req.len(),
            pages_to_delete@ == req,
            total == ps0.len(),
            spec_page_seq(d0) == Some(ps0),
            doc_wf(d0),
            *doc == d0,
            forall|w: int| 0 <= w < k ==> 0 < #[trigger] req[w] && req[w] <= total,
        decreases m - k,
    {
        let p = pages_to_delete[k];
        if p == 0 || (p as u64) > (total as u64) {
            proof {
                lemma_first_bad_skip(req, total as int, k as int);
                assert(req.skip(k as int)[0] == req[k as int]);
                assert(first_bad_page(req, total as int) == Some(p));
            }
            return Err(PdfError::InvalidPageNumber(p));
        }
        k = k + 1;
    }
    proof {
        lemma_first_bad_skip(req, total as int, m as int);
        assert(req.skip(m as int).len() == 0);
        assert(first_bad_page(req, total as int) is None);
    }

    // At least one page must survive.
    if m >= total {
        return Err(PdfError::CannotDeleteAllPages);
    }

    // The tree must not list the same page twice.
    let mut a: usize = 0;
    while a < total
        invariant
            0 <= a <= total,
            total == ps0.len(),
            ps_vec@ == ps0,
            *doc == d0,
            m == req.len(),
            pages_to_delete@ == req,
            doc_wf(d0),
            spec_page_seq(d0) == Some(ps0),
            first_bad_page(req, total as int) is None,
            m < total,
            forall|p: int, q: int| 0 <= p < q < ps0.len() && p < a ==> ps0[p] != ps0[q],
        decreases total - a,
    {
        let mut b: usize = a + 1;
        while b < total
            invariant
                0 <= a < b <= total,
                total == ps0.len(),
                ps_vec@ == ps0,
                *doc == d0,
                m == req.len(),
                pages_to_delete@ == req,
                doc_wf(d0),
                spec_page_seq(d0) == Some(ps0),
                first_bad_page(req, total as int) is None,
                m < total,
                forall|q: int| a < q < b ==> ps0[a as int] != #[trigger] ps0[q],
            decreases total - b,
        {
            if ps_vec[b] == ps_vec[a] {
                proof {
                    assert(ps0[a as int] == ps0[b as int]);
                    assert(!distinct_ids(ps0));
                    assert(delete_decision(d0, req) == Some(PdfError::MalformedPageTree));
                }
                return Err(PdfError::MalformedPageTree);
            }
            b = b + 1;
        }
        a = a + 1;
    }
    proof {
        assert(distinct_ids(ps0));
    }

    // No requested page may be the root pages node or the catalog.
    let rkey = crate::document::key_root();
    let pkey = crate::document::key_pages();
    let cid = match crate::document::dict_get(&doc.trailer, &rkey) {
        Some(Object::Reference(c)) => *c,
        _ => {
            proof {
                assert(ps0.len() == 0) by {
                    if crate::document::ref_value(d0.trailer@, crate::document::k_root())
                        is None {
                        assert(catalog_of(d0) is None);
                        assert(pages_root_id(d0) is None);
                    }
                }
            }
            vstd::pervasive::unreached()
        },
    };
    let rid = {
        let cat = match crate::document::get_object(&doc.objects, cid) {
            Some(Object::Dictionary(c)) => c,
            _ => {
                proof {
                    assert(catalog_of(d0) is None);
                    assert(ps0.len() == 0);
                }
                vstd::pervasive::unreached()
            },
        };
        match crate::document::dict_get(cat, &pkey) {
            Some(Object::Reference(x)) => *x,
            _ => {
                proof {
                    assert(pages_root_id(d0) is None);
                    assert(ps0.len() == 0);
                }
                vstd::pervasive::unreached()
            },
        }
    };
    proof {
        assert(pages_root_id(d0) == Some(rid));
        assert(crate::document::ref_value(d0.trailer@, crate::document::k_root()) == Some(cid));
    }
    let mut k2: usize = 0;
    while k2 < m
        invariant
            0 <= k2 <= m,
            m == req.len(),
            pages_to_delete@ == req,
            total == ps0.len(),
            ps_vec@ == ps0,
            *doc == d0,
            doc_wf(d0),
            spec_page_seq(d0) == Some(ps0),
            first_bad_page(req, total as int) is None,
            m < total,
            distinct_ids(ps0),
            pages_root_id(d0) == Some(rid),
            crate::document::ref_value(d0.trailer@, crate::document::k_root()) == Some(cid),
            forall|w: int| 0 <= w < m ==> 0 < #[trigger] req[w] && req[w] <= total,
            forall|w: int| 0 <= w < k2 ==> !page_is_anchor(d0, ps0, #[trigger] req[w]),
        decreases m - k2,
    {
        let p = pages_to_delete[k2];
        let pg = ps_vec[(p - 1) as usize];
        if pg == rid || pg == cid {
            proof {
                assert(page_is_anchor(d0, ps0, req[k2 as int]));
                assert(delete_decision(d0, req) == Some(PdfError::MalformedPageTree));
            }
            return Err(PdfError::MalformedPageTree);
        }
        k2 = k2 + 1;
    }
    proof {
        assert(delete_decision(d0, req) is None);
    }

    // Delete from the highest position down.
    let sorted = sort_desc(pages_to_delete);
    proof {
        assert(sorted@.take(0) =~= Seq::<u32>::empty());
        lemma_keep_pages_empty(ps0, sorted@.take(0), 0);
        assert(ps0.skip(0) =~= ps0);
        assert(spec_page_seq(*doc) == Some(keep_pages(ps0, sorted@.take(0), 0)));
    }
    let mut j: usize = 0;
    while j < m
        invariant
            0 <= j <= m,
            m == req.len(),
            m == sorted@.len(),
            m < ps0.len(),
            total == ps0.len(),
            forall|p: int, q: int| 0 <= p < q < sorted@.len() ==> sorted@[p] > sorted@[q],
            forall|x: u32| sorted@.contains(x) <==> req.contains(x),
            forall|w: int| 0 <= w < m ==> 0 < #[trigger] req[w] && req[w] <= total,
            forall|w: int| 0 <= w < m ==> !page_is_anchor(d0, ps0, #[trigger] req[w]),
            distinct_ids(ps0),
            doc_wf(d0),
            spec_page_seq(d0) == Some(ps0),
            first_bad_page(req, total as int) is None,
            pages_root_id(d0) == Some(rid),
            crate::document::ref_value(d0.trailer@, crate::document::k_root()) == Some(cid),
            doc_wf(*doc),
            doc.max_id == d0.max_id,
            doc.objects@.len() == d0.objects@.len() - j,
            pages_root_id(*doc) == Some(rid),
            crate::document::ref_value(doc.trailer@, crate::document::k_root()) == Some(cid),
            spec_page_seq(*doc) == Some(keep_pages(ps0, sorted@.take(j as int), 0)),
            keep_pages(ps0, sorted@.take(j as int), 0).len() == ps0.len() - j,
            distinct_ids(keep_pages(ps0, sorted@.take(j as int), 0)),
        decreases m - j,
    {
        let q = sorted[j];
        let ghost sj = sorted@.take(j as int);
        let ghost cur_ps = keep_pages(ps0, sj, 0);
        proof {
            // The current position still names its original page.
            assert(req.contains(q)) by {
                assert(sorted@[j as int] == q);
                assert(sorted@.contains(q));
            }
            let w = choose|w: int| 0 <= w < req.len() && #[trigger] req[w] == q;
            assert(0 < q && q <= total);
            assert(!page_is_anchor(d0, ps0, q));
            lemma_desc_bound(sorted@, j as int);
            assert(req.contains(sorted@[0])) by {
                assert(sorted@.contains(sorted@[0]));
            }
            let w0 = choose|w0: int| 0 <= w0 < req.len() && #[trigger] req[w0] == sorted@[0];
            assert(sorted@[0] <= total);
            assert(q + j <= total);
            assert forall|t: int| 0 <= t < sj.len() implies #[trigger] sj[t] > q by {
                assert(sj[t] == sorted@[t]);
            }
            lemma_keep_remove(ps0, sj, q as int, 0);
            assert(cur_ps[q - 1] == ps0[q - 1]);
            assert(cur_ps.len() >= q);
            assert(ps0[q - 1] != rid && ps0[q - 1] != cid);
            assert(spec_page_seq(*doc)->Some_0 == cur_ps);
            assert(cur_ps[q as int - 1] != rid && cur_ps[q as int - 1] != cid);
        }
        let ghost before = *doc;
        delete_one(doc, q as usize);
        proof {
            let sj1 = sorted@.take(j as int + 1);
            assert(sj1 =~= sj.push(q));
            assert(spec_page_seq(*doc) == Some(cur_ps.remove(q - 1)));
            assert(cur_ps.remove(q - 1) == keep_pages(ps0, sj.push(q), 0));
            assert(spec_page_seq(*doc) == Some(keep_pages(ps0, sj1, 0)));
            assert(keep_pages(ps0, sj1, 0).len() == ps0.len() - (j + 1));
            assert(distinct_ids(keep_pages(ps0, sj1, 0))) by {
                let newps = cur_ps.remove(q - 1);
                assert forall|p2: int, q2: int|
                    0 <= p2 < q2 < newps.len() implies newps[p2] != newps[q2] by {
                    let op = if p2 < q - 1 {
                        p2
                    } else {
                        p2 + 1
                    };
                    let oq = if q2 < q - 1 {
                        q2
                    } else {
                        q2 + 1
                    };
                    assert(newps[p2] == cur_ps[op] && newps[q2] == cur_ps[oq]);
                }
            }
        }
        j = j + 1;
    }
    proof {
        assert(sorted@.take(m as int) =~= sorted@);
        lemma_keep_pages_same_set(ps0, sorted@, req, 0);
        assert(spec_page_seq(*doc) == Some(keep_pages(ps0, req, 0)));
        assert(deleted_result(d0, *doc, req));
    }
    Ok(())
}

} // verus!
